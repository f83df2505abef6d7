use vstd::prelude::*;
use vstd::std_specs::iter::IteratorSpec;
use vstd::string::StringExecFns;

use crate::board::{blank, cells, covers, height, is_end, is_rectangular, offset, width, Board};
use crate::can_place::{can_place, fits};
use crate::clue::{Clue, Direction, Spot};
use crate::clue_numbering::{assign_clue_numbers, by_number, numbered};
use crate::clue_sorting::{is_stable_order, ordered, sort};
use crate::layout::{
    admits, answers, board_after, carries, completes, is_dead_end, is_first_completion, is_layout,
    is_resolution, is_solvable, is_unsolvable, layout_board, no_later, none_before, place, spots,
    tried_before,
};
use crate::text::{decimal, decimal_string};

verus! {

/// What one square of the grid holds.
#[derive(Clone, Copy, Debug, PartialEq, Eq, Structural)]
pub enum SquareValue {
    /// A letter of a placed answer.
    Char(char),
    /// Nothing yet; a letter may still go here.
    Blank,
    /// Reserved: the square before or after a placed answer stays empty.
    Black,
}

/// The squares of the grid, one inner vector per row.
pub type Grid = Vec<Vec<SquareValue>>;

/// A clue and its answer, before placement.
#[derive(Eq, PartialEq, Debug, Clone)]
pub struct BaseClue {
    pub clue: String,
    pub answer: String,
}

/// What the square (cx, cy) holds once `word` has been written on `b` from
/// (x, y): the word's letter where the word runs; a reserved square just
/// before its start and just after its end, unless a letter is there; what it
/// held before anywhere else.
pub open spec fn written_square(
    b: Board,
    word: Seq<char>,
    x: int,
    y: int,
    direction: Direction,
    cx: int,
    cy: int,
) -> SquareValue {
    if covers(word.len() as int, x, y, direction, cx, cy) {
        SquareValue::Char(word[offset(x, y, direction, cx, cy)])
    } else if is_end(word.len() as int, x, y, direction, cx, cy) && !(b[cy][cx] is Char) {
        SquareValue::Black
    } else {
        b[cy][cx]
    }
}

/// The board once `word` has been written on `b` from (x, y).
pub open spec fn written(b: Board, word: Seq<char>, x: int, y: int, direction: Direction) -> Board {
    Seq::new(
        b.len(),
        |cy: int| Seq::new(b[cy].len(), |cx: int| written_square(b, word, x, y, direction, cx, cy)),
    )
}

/// Marks the square (x, y) as reserved, unless it lies outside the grid or
/// holds a letter.
fn reserve(grid: &mut Grid, x: usize, y: usize)
    ensures
        final(grid)@.len() == old(grid)@.len(),
        forall|r: int|
            0 <= r < old(grid)@.len() ==> (#[trigger] final(grid)@[r])@.len() == old(grid)@[r]@.len(),
        forall|r: int, c: int|
            0 <= r < old(grid)@.len() && 0 <= c < old(grid)@[r]@.len() ==> #[trigger] final(grid)@[r]@[c]
                == (if r == y && c == x && !(old(grid)@[r]@[c] is Char) {
                SquareValue::Black
            } else {
                old(grid)@[r]@[c]
            }),
{
    if y < grid.len() && x < grid[y].len() {
        match grid[y][x] {
            SquareValue::Char(_) => {},
            _ => {
                grid[y][x] = SquareValue::Black;
            },
        }
    }
}

/// Writes the word on a copy of the grid, from (x, y) in the given
/// direction, and reserves the square before its start and the square after
/// its end where they lie in the grid and hold no letter. The grid given is
/// left as it was.
pub fn write_word_to_grid(
    grid: &Grid,
    word: &str,
    x: usize,
    y: usize,
    direction: &Direction,
) -> (new_grid: Grid)
    requires
        is_rectangular(cells(*grid)),
        fits(word@.len() as int, cells(*grid), x as int, y as int, *direction),
    ensures
        cells(new_grid) == written(cells(*grid), word@, x as int, y as int, *direction),
{
    broadcast use vstd::string::group_string_axioms;

    let ghost b = cells(*grid);
    let ghost len = word@.len() as int;
    let across = direction.is_across();
    let mut new_grid = grid.clone();
    assert forall|r: int| 0 <= r < grid@.len() implies new_grid@[r]@ =~= grid@[r]@ by {
        assert(vstd::pervasive::cloned::<Vec<SquareValue>>(grid@[r], new_grid@[r]));
    }
    let grid_height = grid.len();
    let grid_width = grid[0].len();
    assert(height(b) == grid_height && width(b) == grid_width);
    assert forall|r: int| 0 <= r < grid@.len() implies grid@[r]@.len() == width(b) by {
        assert(b[r] == grid@[r]@);
    }
    let mut letters = word.chars();
    let mut i: usize = 0;
    loop
        invariant
            b == cells(*grid),
            len == word@.len(),
            across == (*direction == Direction::Across),
            fits(len, b, x as int, y as int, *direction),
            height(b) == grid_height == grid@.len(),
            width(b) == grid_width,
            forall|r: int| 0 <= r < grid@.len() ==> (#[trigger] grid@[r])@.len() == width(b),
            letters.obeys_prophetic_iter_laws(),
            i <= len,
            letters.remaining() == word@.skip(i as int),
            new_grid@.len() == grid@.len(),
            forall|r: int| 0 <= r < grid@.len() ==> (#[trigger] new_grid@[r])@.len() == width(b),
            forall|r: int, c: int|
                0 <= r < grid@.len() && 0 <= c < width(b) ==> #[trigger] new_grid@[r]@[c] == (if covers(
                    i as int,
                    x as int,
                    y as int,
                    *direction,
                    c,
                    r,
                ) {
                    SquareValue::Char(word@[offset(x as int, y as int, *direction, c, r)])
                } else {
                    grid@[r]@[c]
                }),
        ensures
            i == len,
            new_grid@.len() == grid@.len(),
            forall|r: int| 0 <= r < grid@.len() ==> (#[trigger] new_grid@[r])@.len() == width(b),
            forall|r: int, c: int|
                0 <= r < grid@.len() && 0 <= c < width(b) ==> #[trigger] new_grid@[r]@[c] == (if covers(
                    i as int,
                    x as int,
                    y as int,
                    *direction,
                    c,
                    r,
                ) {
                    SquareValue::Char(word@[offset(x as int, y as int, *direction, c, r)])
                } else {
                    grid@[r]@[c]
                }),
        decreases len - i,
    {
        match letters.next() {
            None => {
                break;
            },
            Some(letter) => {
                assert(i < len) by {
                    assert(word@.skip(i as int).len() > 0);
                }
                assert(letter == word@[i as int]);
                assert(word@.skip(i as int).drop_first() =~= word@.skip(i as int + 1));
                if across {
                    new_grid[y][x + i] = SquareValue::Char(letter);
                } else {
                    new_grid[y + i][x] = SquareValue::Char(letter);
                }
                i += 1;
            },
        }
    }
    if across {
        if x > 0 {
            reserve(&mut new_grid, x - 1, y);
        }
        reserve(&mut new_grid, x + i, y);
    } else {
        if y > 0 {
            reserve(&mut new_grid, x, y - 1);
        }
        reserve(&mut new_grid, x, y + i);
    }
    assert(cells(new_grid) =~~= written(b, word@, x as int, y as int, *direction));
    new_grid
}

/// No grid size in the range that is searched takes all the clues.
#[derive(Debug)]
pub struct UnsolvableLayout {
    /// How many clues were to be placed.
    pub clue_count: usize,
    /// The answer of the first clue, the longest when the clues are ordered.
    pub longest_answer: String,
}

/// A grid of `size` rows of `size` empty squares.
pub fn blank_grid(size: usize) -> (grid: Grid)
    ensures
        cells(grid) == blank(size as int),
{
    let mut grid: Grid = Vec::new();
    let mut y: usize = 0;
    while y < size
        invariant
            y <= size,
            grid@.len() == y,
            forall|r: int| 0 <= r < y ==> (#[trigger] grid@[r])@ == blank(size as int)[r],
        decreases size - y,
    {
        let mut row_squares: Vec<SquareValue> = Vec::new();
        let mut x: usize = 0;
        while x < size
            invariant
                x <= size,
                row_squares@.len() == x,
                forall|c: int| 0 <= c < x ==> #[trigger] row_squares@[c] == SquareValue::Blank,
            decreases size - x,
        {
            row_squares.push(SquareValue::Blank);
            x += 1;
        }
        assert(row_squares@ =~= blank(size as int)[y as int]);
        grid.push(row_squares);
        y += 1;
    }
    assert(cells(grid) =~= blank(size as int));
    grid
}

/// The spot that the search tries at step `d` on the square (x, y): Across,
/// then Down, then on to the next square of the row.
pub open spec fn cursor(x: int, y: int, d: int) -> Spot {
    if d == 0 {
        Spot { x, y, direction: Direction::Across }
    } else if d == 1 {
        Spot { x, y, direction: Direction::Down }
    } else {
        Spot { x: x + 1, y, direction: Direction::Across }
    }
}

/// Places the clues from `word_index` on, one after another, on `grid`, and
/// appends them to `result`. It tries the spots of the grid row by row, on
/// each square Across before Down, and for each spot that the rule of
/// placement accepts it goes on to the next clue; where that fails it takes
/// the clue back and tries the next spot. So it finds the first completion
/// in the order of the search, or none exists.
pub fn place_word(
    word_index: usize,
    grid: Grid,
    clues: &Vec<BaseClue>,
    result: &mut Vec<Clue>,
) -> (outcome: Result<Grid, bool>)
    requires
        word_index <= clues.len(),
        is_rectangular(cells(grid)),
    ensures
        match outcome {
            Ok(final_grid) => {
                let kept = old(result)@.len() as int;
                let placed = final(result)@.skip(kept);
                &&& final(result)@.len() >= kept
                &&& final(result)@.take(kept) == old(result)@
                &&& carries(clues@, word_index as int, placed)
                &&& is_first_completion(answers(clues@), word_index as int, cells(grid), spots(placed))
                &&& cells(final_grid) == board_after(
                    answers(clues@),
                    word_index as int,
                    cells(grid),
                    spots(placed),
                )
            },
            Err(found) => {
                &&& !found
                &&& final(result)@ == old(result)@
                &&& is_dead_end(answers(clues@), word_index as int, cells(grid))
            },
        },
    decreases clues.len() - word_index,
{
    let ghost words = answers(clues@);
    let ghost k = word_index as int;
    let ghost b = cells(grid);
    let ghost before = result@;
    if word_index == clues.len() {
        proof {
            let placed = result@.skip(before.len() as int);
            assert(placed =~= Seq::<Clue>::empty());
            assert(spots(placed) =~= Seq::<Spot>::empty());
            assert(result@.take(before.len() as int) =~= before);
        }
        return Ok(grid);
    }
    let current_clue = &clues[word_index];
    let height = grid.len();
    let width = grid[0].len();
    assert(words[k] == current_clue.answer@);
    let mut y: usize = 0;
    while y < height
        invariant
            y <= height,
            result@ == before,
            before == old(result)@,
            b == cells(grid),
            is_rectangular(b),
            height == crate::board::height(b),
            width == crate::board::width(b),
            word_index < clues.len(),
            words == answers(clues@),
            k == word_index,
            *current_clue == clues@[k],
            none_before(words, k, b, cursor(0, y as int, 0)),
        decreases height - y,
    {
        let mut x: usize = 0;
        while x < width
            invariant
                y < height,
                x <= width,
                result@ == before,
                before == old(result)@,
                b == cells(grid),
                is_rectangular(b),
                height == crate::board::height(b),
                width == crate::board::width(b),
                word_index < clues.len(),
                words == answers(clues@),
                k == word_index,
                *current_clue == clues@[k],
                none_before(words, k, b, cursor(x as int, y as int, 0)),
            decreases width - x,
        {
            let mut d: usize = 0;
            while d < 2
                invariant
                    y < height,
                    x < width,
                    d <= 2,
                    result@ == before,
                    before == old(result)@,
                    b == cells(grid),
                    is_rectangular(b),
                    height == crate::board::height(b),
                    width == crate::board::width(b),
                    word_index < clues.len(),
                    words == answers(clues@),
                    k == word_index,
                    *current_clue == clues@[k],
                    none_before(words, k, b, cursor(x as int, y as int, d as int)),
                decreases 2 - d,
            {
                let direction = if d == 0 {
                    Direction::Across
                } else {
                    Direction::Down
                };
                let ghost here = cursor(x as int, y as int, d as int);
                assert(here == Spot { x: x as int, y: y as int, direction });
                if can_place(current_clue.answer.as_str(), &grid, x, y, &direction, word_index == 0) {
                    assert(admits(words, k, b, here));
                    let next_grid = write_word_to_grid(
                        &grid,
                        current_clue.answer.as_str(),
                        x,
                        y,
                        &direction,
                    );
                    let ghost next_b = cells(next_grid);
                    assert(next_b == place(b, words[k], here));
                    let clue = Clue {
                        base: BaseClue {
                            clue: current_clue.clue.clone(),
                            answer: current_clue.answer.clone(),
                        },
                        x,
                        y,
                        direction,
                        number: 0,
                    };
                    assert(clue.spot() == here);
                    assert(clue.base == clues@[k]);
                    result.push(clue);
                    let next_result = place_word(word_index + 1, next_grid, clues, result);
                    if next_result.is_ok() {
                        proof {
                            let kept = before.len() as int;
                            let placed = result@.skip(kept);
                            let tail = result@.skip(kept + 1);
                            assert(result@.take(kept + 1) == before.push(clue));
                            assert(result@.take(kept) =~= result@.take(kept + 1).take(kept));
                            assert(result@.take(kept) =~= before);
                            assert(placed[0] == result@.take(kept + 1)[kept]);
                            assert(placed.drop_first() =~= tail);
                            assert(spots(placed)[0] == here);
                            assert(spots(placed).drop_first() =~= spots(tail));
                            assert(completes(words, k, b, spots(placed)));
                            assert forall|j: int| 0 <= j < placed.len() implies (#[trigger] placed[j]).base
                                == clues@[k + j] && placed[j].number == 0 by {
                                if j > 0 {
                                    assert(placed[j] == tail[j - 1]);
                                }
                            }
                            assert forall|other: Seq<Spot>| #[trigger]
                                completes(words, k, b, other) implies no_later(
                                spots(placed),
                                other,
                            ) by {
                                assert(!tried_before(other[0], here));
                                if other[0] == here {
                                    assert(completes(words, k + 1, next_b, other.drop_first()));
                                    assert(no_later(spots(tail), other.drop_first()));
                                } else {
                                    assert(tried_before(here, other[0]));
                                }
                            }
                            assert(board_after(words, k, b, spots(placed)) == board_after(
                                words,
                                k + 1,
                                next_b,
                                spots(tail),
                            ));
                            assert(placed.len() == clues@.len() - k);
                            assert(carries(clues@, k, placed));
                            assert(is_first_completion(words, k, b, spots(placed)));
                            assert(result@.len() >= kept);
                        }
                        return next_result;
                    }
                    result.pop();
                    assert(result@ =~= before);
                    assert(is_dead_end(words, k + 1, next_b));
                    assert forall|other: Seq<Spot>| #[trigger]
                        completes(words, k, b, other) implies other[0] != here by {
                        if other[0] == here {
                            assert(completes(words, k + 1, next_b, other.drop_first()));
                        }
                    }
                } else {
                    assert(!admits(words, k, b, here));
                }
                assert forall|other: Seq<Spot>| #[trigger]
                    completes(words, k, b, other) implies !tried_before(
                    other[0],
                    cursor(x as int, y as int, d as int + 1),
                ) by {
                    assert(other[0] != here);
                    assert(!tried_before(other[0], here));
                }
                d += 1;
            }
            x += 1;
        }
        assert forall|other: Seq<Spot>| #[trigger]
            completes(words, k, b, other) implies !tried_before(
            other[0],
            cursor(0, y as int + 1, 0),
        ) by {
            assert(!tried_before(other[0], cursor(width as int, y as int, 0)));
            assert(admits(words, k, b, other[0]));
        }
        y += 1;
    }
    assert forall|other: Seq<Spot>| !#[trigger] completes(words, k, b, other) by {
        if completes(words, k, b, other) {
            assert(!tried_before(other[0], cursor(0, height as int, 0)));
            assert(admits(words, k, b, other[0]));
        }
    }
    Err(false)
}

/// Finds the smallest grid that takes all the clues, in the order given.
/// With L the length of the first answer, it tries the sizes L, L + 1, ... up
/// to 3L - 1, each on an empty grid, and returns the grid and the placed
/// clues of the first size for which the search succeeds.
pub fn resolve(sorted: &Vec<BaseClue>) -> (outcome: Result<(Grid, Vec<Clue>), UnsolvableLayout>)
    requires
        sorted.len() > 0,
        3 * sorted[0].answer@.len() <= usize::MAX,
    ensures
        match outcome {
            Ok((grid, placed)) => {
                let n = grid@.len() as int;
                &&& is_resolution(sorted@, n, placed@)
                &&& cells(grid) == layout_board(answers(sorted@), n, spots(placed@))
            },
            Err(failure) => {
                &&& is_unsolvable(sorted@)
                &&& failure.clue_count == sorted.len()
                &&& failure.longest_answer@ == sorted[0].answer@
            },
        },
{
    let ghost words = answers(sorted@);
    let longest = sorted[0].answer.as_str().unicode_len();
    assert(longest == words[0].len());
    let limit = longest * 3;
    let mut size = longest;
    while size < limit
        invariant
            sorted.len() > 0,
            words == answers(sorted@),
            longest == words[0].len(),
            limit == 3 * longest,
            longest <= size <= limit,
            forall|m: int| longest <= m < size ==> !#[trigger] is_solvable(words, m),
        decreases limit - size,
    {
        let initial_grid = blank_grid(size);
        let mut clues: Vec<Clue> = Vec::new();
        let result_for_size = place_word(0, initial_grid, sorted, &mut clues);
        match result_for_size {
            Ok(grid) => {
                proof {
                    assert(clues@.skip(0) =~= clues@);
                    crate::layout::lemma_board_keeps_size(words, 0, blank(size as int), spots(clues@));
                    assert(blank(size as int).len() == size);
                }
                return Ok((grid, clues));
            },
            Err(_) => {
                assert(!is_solvable(words, size as int)) by {
                    assert forall|layout: Seq<Spot>| !is_layout(words, size as int, layout) by {
                        assert(!completes(words, 0, blank(size as int), layout));
                    }
                }
            },
        }
        size += 1;
    }
    Err(UnsolvableLayout { clue_count: sorted.len(), longest_answer: sorted[0].answer.clone() })
}

/// The index of the first `;` of the line at or after `from`, or the
/// line's length where there is none.
pub open spec fn field_end(line: Seq<char>, from: int) -> int
    decreases line.len() - from,
{
    if from >= line.len() {
        line.len() as int
    } else if line[from] == ';' {
        from
    } else {
        field_end(line, from + 1)
    }
}

/// The line holds a `;`, so it has a clue and an answer.
pub open spec fn has_answer(line: Seq<char>) -> bool {
    field_end(line, 0) < line.len()
}

/// The clue of a line: what stands before the first `;`.
pub open spec fn clue_text(line: Seq<char>) -> Seq<char> {
    line.subrange(0, field_end(line, 0))
}

/// The answer of a line: what stands behind the first `;`, up to the next
/// `;` or the end of the line.
pub open spec fn answer_text(line: Seq<char>) -> Seq<char> {
    let start = field_end(line, 0) + 1;
    line.subrange(start, field_end(line, start))
}

/// `pairs` holds, for each line, its clue and its answer.
pub open spec fn is_parsed(lines: Seq<String>, pairs: Seq<BaseClue>) -> bool {
    &&& pairs.len() == lines.len()
    &&& forall|i: int|
        0 <= i < lines.len() ==> (#[trigger] pairs[i]).clue@ == clue_text(lines[i]@) && pairs[i].answer@
            == answer_text(lines[i]@)
}

/// A grid for an answer of `len` letters can be numbered on this machine:
/// the largest grid that is tried has fewer squares than `usize` can count.
pub open spec fn grid_fits(len: nat) -> bool {
    (3 * len) * (3 * len) < usize::MAX
}

/// The lines can be laid out: there is at least one, each holds a clue and
/// an answer, and the grids for the answers can be numbered on this machine.
pub open spec fn are_placeable(lines: Seq<String>) -> bool {
    &&& lines.len() > 0
    &&& forall|i: int| 0 <= i < lines.len() ==> has_answer(#[trigger] lines[i]@)
    &&& forall|i: int| 0 <= i < lines.len() ==> grid_fits(answer_text(#[trigger] lines[i]@).len())
}

/// What is reported when no grid takes the clues.
pub open spec fn failure_text(clue_count: nat, longest_answer: Seq<char>) -> Seq<char> {
    "Failed to place the "@ + decimal(clue_count) + " clues. The longest word was "@
        + longest_answer + "."@
}

/// The placed and numbered clues that belong to the lines: `pairs` are the
/// lines' clues, `n` is the size of the grid found for them in their search
/// order, `placed` are the clues as the search placed them, and `clues` are
/// those with their numbers, by ascending number.
pub open spec fn is_placement(
    lines: Seq<String>,
    pairs: Seq<BaseClue>,
    n: int,
    placed: Seq<Clue>,
    clues: Seq<Clue>,
) -> bool {
    let sorted = ordered(pairs);
    &&& is_parsed(lines, pairs)
    &&& is_resolution(sorted, n, placed)
    &&& clues == by_number(numbered(layout_board(answers(sorted), n, spots(placed)), placed))
}

/// The failure that belongs to the lines: `pairs` are the lines' clues, no
/// grid takes them, and `message` says so.
pub open spec fn is_failure(lines: Seq<String>, pairs: Seq<BaseClue>, message: Seq<char>) -> bool {
    let sorted = ordered(pairs);
    &&& is_parsed(lines, pairs)
    &&& is_unsolvable(sorted)
    &&& message == failure_text(pairs.len(), sorted[0].answer@)
}

/// `clues` are the placed and numbered clues that belong to the lines.
pub open spec fn places(lines: Seq<String>, clues: Seq<Clue>) -> bool {
    exists|pairs: Seq<BaseClue>, n: int, placed: Seq<Clue>| #[trigger]
        is_placement(lines, pairs, n, placed, clues)
}

/// No grid takes the clues of the lines, and `message` says so.
pub open spec fn fails_with(lines: Seq<String>, message: Seq<char>) -> bool {
    exists|pairs: Seq<BaseClue>| #[trigger] is_failure(lines, pairs, message)
}

impl UnsolvableLayout {
    /// The failure in words.
    pub fn message(&self) -> (text: String)
        ensures
            text@ == failure_text(self.clue_count as nat, self.longest_answer@),
    {
        let text = String::from_str("Failed to place the ");
        let text = text.concat(decimal_string(self.clue_count).as_str());
        let text = text.concat(" clues. The longest word was ");
        let text = text.concat(self.longest_answer.as_str());
        text.concat(".")
    }
}

/// Finds where the field that starts at `from` ends.
fn find_field_end(line: &str, from: usize) -> (end: usize)
    requires
        from <= line@.len(),
    ensures
        end == field_end(line@, from as int),
{
    broadcast use vstd::string::group_string_axioms;

    let len = line.unicode_len();
    let mut letters = line.chars();
    let mut i: usize = 0;
    loop
        invariant
            len == line@.len(),
            from <= line@.len(),
            i <= line@.len(),
            letters.obeys_prophetic_iter_laws(),
            letters.remaining() == line@.skip(i as int),
            field_end(line@, from as int) == field_end(
                line@,
                if i > from {
                    i as int
                } else {
                    from as int
                },
            ),
        decreases line@.len() - i,
    {
        match letters.next() {
            None => {
                assert(i == line@.len()) by {
                    assert(line@.skip(i as int).len() == 0);
                }
                return i;
            },
            Some(letter) => {
                assert(i < line@.len()) by {
                    assert(line@.skip(i as int).len() > 0);
                }
                assert(letter == line@[i as int]);
                assert(line@.skip(i as int).drop_first() =~= line@.skip(i as int + 1));
                if i >= from && letter == ';' {
                    return i;
                }
                i += 1;
            },
        }
    }
}

/// Reads the clue and the answer of a line.
pub fn split_line(line: &str) -> (pair: BaseClue)
    requires
        has_answer(line@),
    ensures
        pair.clue@ == clue_text(line@),
        pair.answer@ == answer_text(line@),
{
    let len = line.unicode_len();
    let clue_end = find_field_end(line, 0);
    let answer_end = find_field_end(line, clue_end + 1);
    proof {
        lemma_field_end_bounds(line@, 0);
        lemma_field_end_bounds(line@, clue_end as int + 1);
    }
    BaseClue {
        clue: String::from_str(line.substring_char(0, clue_end)),
        answer: String::from_str(line.substring_char(clue_end + 1, answer_end)),
    }
}

/// A field ends at or after its start and within the line.
pub proof fn lemma_field_end_bounds(line: Seq<char>, from: int)
    requires
        0 <= from <= line.len(),
    ensures
        from <= field_end(line, from) <= line.len(),
    decreases line.len() - from,
{
    if from < line.len() && line[from] != ';' {
        lemma_field_end_bounds(line, from + 1);
    }
}

/// Whether a grid for an answer of `len` letters can be numbered on this
/// machine.
fn grid_can_fit(len: usize) -> (ok: bool)
    ensures
        ok == grid_fits(len as nat),
{
    match len.checked_mul(3) {
        None => {
            assert((3 * len) * (3 * len) >= 3 * len) by (nonlinear_arith)
                requires
                    len >= 1,
            ;
            false
        },
        Some(side) => match side.checked_mul(side) {
            None => false,
            Some(squares) => squares < usize::MAX,
        },
    }
}

/// Whether the lines can be laid out, which `place_clues` asks of them.
pub fn can_place_clues(lines: &Vec<String>) -> (ok: bool)
    ensures
        ok == are_placeable(lines@),
{
    if lines.len() == 0 {
        return false;
    }
    let mut i: usize = 0;
    while i < lines.len()
        invariant
            i <= lines.len(),
            forall|j: int| 0 <= j < i ==> has_answer(#[trigger] lines[j]@),
            forall|j: int| 0 <= j < i ==> grid_fits(answer_text(#[trigger] lines[j]@).len()),
        decreases lines.len() - i,
    {
        let line = lines[i].as_str();
        let len = line.unicode_len();
        let clue_end = find_field_end(line, 0);
        if clue_end >= len {
            assert(!has_answer(lines[i as int]@));
            return false;
        }
        let answer_end = find_field_end(line, clue_end + 1);
        proof {
            lemma_field_end_bounds(line@, clue_end as int + 1);
        }
        if !grid_can_fit(answer_end - (clue_end + 1)) {
            assert(!grid_fits(answer_text(lines[i as int]@).len()));
            return false;
        }
        i += 1;
    }
    true
}

/// Lays out the clues of the lines, each of the form `clue;answer`. The
/// clues are ordered longest answer first, placed on the smallest grid that
/// takes them, numbered, and returned by ascending number. Where no grid
/// takes them, the error says so.
pub fn place_clues(lines: Vec<String>) -> (outcome: Result<Vec<Clue>, String>)
    requires
        are_placeable(lines@),
    ensures
        match outcome {
            Ok(clues) => places(lines@, clues@),
            Err(message) => fails_with(lines@, message@),
        },
{
    let mut pairs: Vec<BaseClue> = Vec::new();
    let mut i: usize = 0;
    while i < lines.len()
        invariant
            i <= lines.len(),
            pairs@.len() == i,
            forall|j: int| 0 <= j < lines.len() ==> has_answer(#[trigger] lines[j]@),
            forall|j: int|
                0 <= j < i ==> (#[trigger] pairs@[j]).clue@ == clue_text(lines@[j]@) && pairs@[j].answer@
                    == answer_text(lines@[j]@),
        decreases lines.len() - i,
    {
        pairs.push(split_line(lines[i].as_str()));
        i += 1;
    }
    let ghost parsed = pairs@;
    assert(is_parsed(lines@, parsed));
    let sorted = sort(pairs);
    proof {
        let origin = choose|origin: Seq<int>| is_stable_order(parsed, sorted@, origin);
        assert(sorted@[0] == parsed[origin[0]]);
        assert(grid_fits(answer_text(lines[origin[0]]@).len()));
        assert(answers(sorted@)[0] == sorted@[0].answer@);
    }
    let ghost longest = sorted@[0].answer@.len();
    assert(3 * longest <= usize::MAX) by (nonlinear_arith)
        requires
            (3 * longest) * (3 * longest) < usize::MAX,
    ;
    match resolve(&sorted) {
        Ok((grid, placed)) => {
            let mut clues = placed;
            let ghost n = grid@.len() as int;
            let ghost words = answers(sorted@);
            let ghost layout = spots(placed@);
            proof {
                let b = cells(grid);
                crate::layout::lemma_board_keeps_size(words, 0, blank(n), layout);
                assert(b.len() == n);
                assert forall|y: int| 0 <= y < b.len() implies (#[trigger] b[y]).len() == n by {
                    assert(blank(n)[y].len() == n);
                }
                assert(is_rectangular(b));
                assert(height(b) == n && width(b) == n);
                assert(n * n < usize::MAX) by (nonlinear_arith)
                    requires
                        0 <= n < 3 * longest,
                        (3 * longest) * (3 * longest) < usize::MAX,
                ;
                assert forall|j: int| 0 <= j < placed@.len() implies crate::board::in_bounds(
                    b,
                    (#[trigger] placed@[j]).x as int,
                    placed@[j].y as int,
                ) by {
                    crate::laws::lemma_completion_length(words, 0, blank(n), layout);
                    crate::laws::lemma_spots_on_board(words, 0, blank(n), layout, j);
                    assert(layout[j] == placed@[j].spot());
                    assert(blank(n)[0].len() == n);
                }
            }
            assign_clue_numbers(&grid, &mut clues);
            assert(is_placement(lines@, parsed, n, placed@, clues@));
            assert(places(lines@, clues@));
            return Ok(clues);
        },
        Err(failure) => {
            let message = failure.message();
            assert(is_failure(lines@, parsed, message@));
            assert(fails_with(lines@, message@));
            return Err(message);
        },
    }
}

} // verus!
