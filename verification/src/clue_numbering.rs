use vstd::prelude::*;

use crate::board::{cells, height, holds_letter, in_bounds, is_rectangular, width, Board};
use crate::can_place::is_letter;
use crate::clue::Clue;
use crate::placement::{BaseClue, Grid, SquareValue};

verus! {

/// An Across run of at least two letters begins on the square (x, y): it
/// holds a letter, the square to its left is the edge or reserved, and the
/// square to its right holds a letter.
pub open spec fn starts_across(b: Board, x: int, y: int) -> bool {
    &&& holds_letter(b, x, y)
    &&& (x == 0 || b[y][x - 1] == SquareValue::Black)
    &&& holds_letter(b, x + 1, y)
}

/// A Down run of at least two letters begins on the square (x, y).
pub open spec fn starts_down(b: Board, x: int, y: int) -> bool {
    &&& holds_letter(b, x, y)
    &&& (y == 0 || b[y - 1][x] == SquareValue::Black)
    &&& holds_letter(b, x, y + 1)
}

/// The square (x, y) gets a number: a run begins there, Across or Down.
pub open spec fn is_start(b: Board, x: int, y: int) -> bool {
    starts_across(b, x, y) || starts_down(b, x, y)
}

/// How many squares of row `y` in the columns before `x` get a number.
pub open spec fn starts_in_row(b: Board, y: int, x: int) -> nat
    decreases x,
{
    if x <= 0 {
        0
    } else {
        starts_in_row(b, y, x - 1) + if is_start(b, x - 1, y) { 1nat } else { 0nat }
    }
}

/// How many squares in the rows above `y` get a number.
pub open spec fn starts_above(b: Board, y: int) -> nat
    decreases y,
{
    if y <= 0 {
        0
    } else {
        starts_above(b, y - 1) + starts_in_row(b, y - 1, b[y - 1].len() as int)
    }
}

/// The number of the square (x, y): numbered squares count up from 1, row
/// by row and within a row from left to right; a square where no run begins
/// has the number 0.
pub open spec fn number_at(b: Board, x: int, y: int) -> nat {
    if is_start(b, x, y) {
        starts_above(b, y) + starts_in_row(b, y, x) + 1
    } else {
        0
    }
}

/// The clue with its number set to that of its start square.
pub open spec fn with_number(b: Board, clue: Clue) -> Clue {
    Clue {
        x: clue.x,
        y: clue.y,
        direction: clue.direction,
        base: clue.base,
        number: number_at(b, clue.x as int, clue.y as int) as usize,
    }
}

/// The clues, each with the number of its start square.
pub open spec fn numbered(b: Board, clues: Seq<Clue>) -> Seq<Clue> {
    Seq::new(clues.len(), |i: int| with_number(b, clues[i]))
}

/// Of two clues of one list, the one at index `i` belongs before the one at
/// index `j`: its number is smaller, or the same and it came first.
pub open spec fn numbered_first(clues: Seq<Clue>, i: int, j: int) -> bool {
    ||| clues[i].number < clues[j].number
    ||| (clues[i].number == clues[j].number && i < j)
}

/// `sorted` holds the clues of `clues`, each once, by ascending number, and
/// clues of one number in the order they had; `origin[q]` is the index in
/// `clues` of the clue at `sorted[q]`.
pub open spec fn is_number_order(clues: Seq<Clue>, sorted: Seq<Clue>, origin: Seq<int>) -> bool {
    &&& sorted.len() == clues.len()
    &&& origin.len() == clues.len()
    &&& forall|q: int|
        0 <= q < sorted.len() ==> 0 <= #[trigger] origin[q] < clues.len() && sorted[q]
            == clues[origin[q]]
    &&& forall|p: int, q: int|
        0 <= p < q < sorted.len() ==> numbered_first(clues, #[trigger] origin[p], #[trigger] origin[q])
}

/// No clue of the list has a smaller number than one before it.
pub open spec fn is_ascending(sorted: Seq<Clue>) -> bool {
    forall|p: int, q: int|
        0 <= p < q < sorted.len() ==> (#[trigger] sorted[p]).number <= (#[trigger] sorted[q]).number
}

/// Where a clue with the given number goes in a list of ascending numbers:
/// behind every clue whose number is no greater.
pub open spec fn number_slot(sorted: Seq<Clue>, number: usize) -> int
    decreases sorted.len(),
{
    if sorted.len() == 0 || sorted[0].number > number {
        0
    } else {
        1 + number_slot(sorted.drop_first(), number)
    }
}

/// The clues by ascending number; clues of one number keep the order they
/// came in.
pub open spec fn by_number(clues: Seq<Clue>) -> Seq<Clue>
    decreases clues.len(),
{
    if clues.len() == 0 {
        clues
    } else {
        let head = by_number(clues.drop_last());
        head.insert(number_slot(head, clues.last().number), clues.last())
    }
}

/// In a list of ascending numbers, the slot for a number parts the clues
/// with numbers no greater from those with greater numbers.
pub proof fn lemma_number_slot_parts(sorted: Seq<Clue>, number: usize)
    requires
        is_ascending(sorted),
    ensures
        0 <= number_slot(sorted, number) <= sorted.len(),
        forall|q: int|
            0 <= q < number_slot(sorted, number) ==> (#[trigger] sorted[q]).number <= number,
        forall|q: int|
            number_slot(sorted, number) <= q < sorted.len() ==> (#[trigger] sorted[q]).number
                > number,
    decreases sorted.len(),
{
    if sorted.len() == 0 || sorted[0].number > number {
        assert forall|q: int| 0 <= q < sorted.len() implies (#[trigger] sorted[q]).number
            > number by {
            if q > 0 {
                assert(sorted[0].number <= sorted[q].number);
            }
        }
    } else {
        let tail = sorted.drop_first();
        assert forall|p: int, q: int| 0 <= p < q < tail.len() implies (#[trigger] tail[p]).number <= (
        #[trigger] tail[q]).number by {
            assert(tail[p] == sorted[p + 1] && tail[q] == sorted[q + 1]);
        }
        lemma_number_slot_parts(tail, number);
        assert forall|q: int| 0 <= q < number_slot(sorted, number) implies (
        #[trigger] sorted[q]).number <= number by {
            if q > 0 {
                assert(sorted[q] == tail[q - 1]);
            }
        }
        assert forall|q: int| number_slot(sorted, number) <= q < sorted.len() implies (
        #[trigger] sorted[q]).number > number by {
            assert(sorted[q] == tail[q - 1]);
        }
    }
}

/// The list by number is a stable rearrangement of the clues, smallest
/// number first. The result tells, for each place of the list, which clue
/// stands there.
pub proof fn law_by_number_is_stable(clues: Seq<Clue>) -> (origin: Seq<int>)
    ensures
        is_number_order(clues, by_number(clues), origin),
        is_ascending(by_number(clues)),
    decreases clues.len(),
{
    if clues.len() == 0 {
        Seq::<int>::empty()
    } else {
        let n = clues.len() as int;
        let front = clues.drop_last();
        let head = by_number(front);
        let head_origin = law_by_number_is_stable(front);
        let number = clues.last().number;
        let p = number_slot(head, number);
        lemma_number_slot_parts(head, number);
        let sorted = head.insert(p, clues.last());
        let origin = head_origin.insert(p, n - 1);
        assert forall|q: int| 0 <= q < sorted.len() implies 0 <= #[trigger] origin[q] < clues.len()
            && sorted[q] == clues[origin[q]] by {
            if q < p {
                assert(origin[q] == head_origin[q]);
                assert(sorted[q] == head[q]);
                assert(front[head_origin[q]] == clues[head_origin[q]]);
            } else if q > p {
                assert(origin[q] == head_origin[q - 1]);
                assert(sorted[q] == head[q - 1]);
                assert(front[head_origin[q - 1]] == clues[head_origin[q - 1]]);
            }
        }
        assert forall|a: int, c: int| 0 <= a < c < sorted.len() implies numbered_first(
            clues,
            #[trigger] origin[a],
            #[trigger] origin[c],
        ) by {
            let oa = if a < p { a } else { a - 1 };
            let oc = if c < p { c } else { c - 1 };
            if a != p {
                assert(origin[a] == head_origin[oa]);
                assert(head[oa] == front[head_origin[oa]]);
                assert(front[head_origin[oa]] == clues[head_origin[oa]]);
            }
            if c != p {
                assert(origin[c] == head_origin[oc]);
                assert(head[oc] == front[head_origin[oc]]);
                assert(front[head_origin[oc]] == clues[head_origin[oc]]);
            }
            if a != p && c != p {
                assert(numbered_first(front, head_origin[oa], head_origin[oc]));
            }
        }
        assert forall|a: int, c: int| 0 <= a < c < sorted.len() implies (
        #[trigger] sorted[a]).number <= (#[trigger] sorted[c]).number by {
            assert(numbered_first(clues, origin[a], origin[c]));
        }
        origin
    }
}

/// Every clue has its place in the list by number: the result is an index at
/// which the list holds the clue at index `i` of the list given.
pub proof fn lemma_by_number_position(clues: Seq<Clue>, i: int) -> (q: int)
    requires
        0 <= i < clues.len(),
    ensures
        by_number(clues).len() == clues.len(),
        0 <= q < clues.len(),
        by_number(clues)[q] == clues[i],
    decreases clues.len(),
{
    let front = clues.drop_last();
    let head = by_number(front);
    let p = number_slot(head, clues.last().number);
    let origin = law_by_number_is_stable(front);
    let whole = law_by_number_is_stable(clues);
    lemma_number_slot_parts(head, clues.last().number);
    if i == clues.len() - 1 {
        p
    } else {
        let r = lemma_by_number_position(front, i);
        assert(front[i] == clues[i]);
        if r < p {
            r
        } else {
            r + 1
        }
    }
}

/// A row has no more numbered squares before column `x` than squares, and
/// the count does not fall as `x` grows.
pub proof fn lemma_row_count(b: Board, y: int, x: int, further: int)
    requires
        0 <= x <= further,
    ensures
        starts_in_row(b, y, x) <= x,
        starts_in_row(b, y, x) <= starts_in_row(b, y, further),
    decreases further,
{
    if x > 0 {
        lemma_row_count(b, y, x - 1, x - 1);
    }
    if x < further {
        lemma_row_count(b, y, x, further - 1);
    }
}

/// The rows above `y` hold no more numbered squares than squares, and the
/// count does not fall as `y` grows.
pub proof fn lemma_rows_count(b: Board, y: int, lower: int)
    requires
        is_rectangular(b),
        0 <= y <= lower <= height(b),
    ensures
        starts_above(b, y) <= y * width(b),
        starts_above(b, y) <= starts_above(b, lower),
    decreases lower,
{
    if y > 0 {
        lemma_rows_count(b, y - 1, y - 1);
        lemma_row_count(b, y - 1, width(b), width(b));
        assert(b[y - 1].len() == width(b));
        assert((y - 1) * width(b) + width(b) == y * width(b)) by (nonlinear_arith);
    } else {
        assert(0 * width(b) == 0);
    }
    if y < lower {
        lemma_rows_count(b, y, lower - 1);
    }
}

/// Numbers grow along the scan of the grid: of two numbered squares, the
/// one that comes first, row by row and within a row from left to right,
/// has the smaller number.
pub proof fn law_numbers_increase(b: Board, x1: int, y1: int, x2: int, y2: int)
    requires
        is_rectangular(b),
        is_start(b, x1, y1),
        is_start(b, x2, y2),
        y1 < y2 || (y1 == y2 && x1 < x2),
    ensures
        0 < number_at(b, x1, y1) < number_at(b, x2, y2),
{
    assert(in_bounds(b, x1, y1) && in_bounds(b, x2, y2));
    assert(b[y1].len() == width(b));
    if y1 == y2 {
        lemma_row_count(b, y1, x1 + 1, x2);
    } else {
        lemma_row_count(b, y1, x1 + 1, width(b));
        lemma_rows_count(b, y1 + 1, y2);
        lemma_row_count(b, y2, 0, x2);
    }
}

/// A square's number is no greater than the number of squares of the grid.
pub proof fn lemma_number_bound(b: Board, x: int, y: int)
    requires
        is_rectangular(b),
    ensures
        number_at(b, x, y) <= height(b) * width(b),
{
    if is_start(b, x, y) {
        assert(in_bounds(b, x, y));
        assert(b[y].len() == width(b));
        lemma_rows_count(b, y, y);
        lemma_row_count(b, y, x, x);
        assert(y * width(b) + x + 1 <= height(b) * width(b)) by (nonlinear_arith)
            requires
                0 <= y < height(b),
                0 <= x < width(b),
        ;
    } else {
        assert(0 <= height(b) * width(b)) by (nonlinear_arith)
            requires
                0 <= height(b),
                0 <= width(b),
        ;
    }
}

/// The square of one clue comes before the square of another in the scan of
/// the grid: in a row above, or in the same row further left.
pub open spec fn starts_earlier(one: Clue, other: Clue) -> bool {
    one.y < other.y || (one.y == other.y && one.x < other.x)
}

/// Among the numbered clues that `assign_clue_numbers` leaves, the numbers
/// follow the scan of the grid: a clue that starts earlier has the smaller
/// number. The grid has fewer squares than `usize` can count.
pub proof fn law_numbered_clues_follow_scan(b: Board, clues: Seq<Clue>, p: int, q: int)
    requires
        is_rectangular(b),
        height(b) * width(b) < usize::MAX,
        0 <= p < clues.len(),
        0 <= q < clues.len(),
        by_number(numbered(b, clues))[p].number != 0,
        by_number(numbered(b, clues))[q].number != 0,
        starts_earlier(by_number(numbered(b, clues))[p], by_number(numbered(b, clues))[q]),
    ensures
        by_number(numbered(b, clues)).len() == clues.len(),
        by_number(numbered(b, clues))[p].number < by_number(numbered(b, clues))[q].number,
{
    let given = numbered(b, clues);
    let sorted = by_number(given);
    let origin = law_by_number_is_stable(given);
    let one = sorted[p];
    let other = sorted[q];
    assert(one == given[origin[p]] && other == given[origin[q]]);
    lemma_number_bound(b, one.x as int, one.y as int);
    lemma_number_bound(b, other.x as int, other.y as int);
    law_numbers_increase(b, one.x as int, one.y as int, other.x as int, other.y as int);
}

/// Among the clues that `assign_clue_numbers` leaves, clues that start on
/// the same square have the same number.
pub proof fn law_numbered_clues_share_number(b: Board, clues: Seq<Clue>, p: int, q: int)
    requires
        0 <= p < clues.len(),
        0 <= q < clues.len(),
        by_number(numbered(b, clues))[p].x == by_number(numbered(b, clues))[q].x,
        by_number(numbered(b, clues))[p].y == by_number(numbered(b, clues))[q].y,
    ensures
        by_number(numbered(b, clues))[p].number == by_number(numbered(b, clues))[q].number,
{
    let given = numbered(b, clues);
    let sorted = by_number(given);
    let origin = law_by_number_is_stable(given);
    assert(sorted[p] == given[origin[p]] && sorted[q] == given[origin[q]]);
}

/// A square has one number: clues that start on the same square, one Across
/// and one Down, are given the same number.
pub proof fn law_shared_start_shares_number(b: Board, clues: Seq<Clue>, i: int, j: int)
    requires
        0 <= i < clues.len(),
        0 <= j < clues.len(),
        clues[i].x == clues[j].x,
        clues[i].y == clues[j].y,
    ensures
        numbered(b, clues)[i].number == numbered(b, clues)[j].number,
{
}

/// Numbers the squares where runs begin, gives each clue the number of its
/// start square, and puts the clues in the order of their numbers.
pub fn assign_clue_numbers(grid: &Grid, clues: &mut Vec<Clue>)
    requires
        is_rectangular(cells(*grid)),
        height(cells(*grid)) * width(cells(*grid)) < usize::MAX,
        forall|i: int|
            0 <= i < old(clues)@.len() ==> in_bounds(
                cells(*grid),
                (#[trigger] old(clues)@[i]).x as int,
                old(clues)@[i].y as int,
            ),
    ensures
        final(clues)@ == by_number(numbered(cells(*grid), old(clues)@)),
        is_ascending(final(clues)@),
        exists|origin: Seq<int>|
            is_number_order(numbered(cells(*grid), old(clues)@), final(clues)@, origin),
{
    let ghost b = cells(*grid);
    let height = grid.len();
    let width = grid[0].len();
    assert(height == crate::board::height(b) && width == crate::board::width(b));
    let mut current_number: usize = 1;
    let mut numbered_cells: Vec<Vec<usize>> = Vec::new();

    // First pass: number the squares where a run begins.
    let mut y: usize = 0;
    while y < height
        invariant
            b == cells(*grid),
            is_rectangular(b),
            height == crate::board::height(b),
            width == crate::board::width(b),
            height * width < usize::MAX,
            y <= height,
            numbered_cells@.len() == y,
            current_number == starts_above(b, y as int) + 1,
            forall|r: int| 0 <= r < y ==> (#[trigger] numbered_cells@[r])@.len() == width,
            forall|r: int, c: int|
                0 <= r < y && 0 <= c < width ==> #[trigger] numbered_cells@[r]@[c] == number_at(b, c, r),
        decreases height - y,
    {
        let mut row_numbers: Vec<usize> = Vec::new();
        let mut x: usize = 0;
        assert(b[y as int] == grid@[y as int]@);
        assert(b[y as int].len() == width);
        while x < width
            invariant
                b == cells(*grid),
                is_rectangular(b),
                height == crate::board::height(b),
                width == crate::board::width(b),
                height * width < usize::MAX,
                y < height,
                x <= width,
                b[y as int] == grid@[y as int]@,
                b[y as int].len() == width,
                row_numbers@.len() == x,
                current_number == starts_above(b, y as int) + starts_in_row(b, y as int, x as int) + 1,
                forall|c: int| 0 <= c < x ==> #[trigger] row_numbers@[c] == number_at(b, c, y as int),
            decreases width - x,
        {
            let mut is_start_of_across = false;
            let mut is_start_of_down = false;
            if is_letter(grid, x, y) {
                if (x == 0 || grid[y][x - 1] == SquareValue::Black) && is_letter(grid, x + 1, y) {
                    is_start_of_across = true;
                }
                if y > 0 {
                    assert(b[y as int - 1] == grid@[y as int - 1]@);
                    assert(b[y as int - 1].len() == width);
                }
                if (y == 0 || grid[y - 1][x] == SquareValue::Black) && is_letter(grid, x, y + 1) {
                    is_start_of_down = true;
                }
            }
            assert(is_start_of_across == starts_across(b, x as int, y as int));
            assert(is_start_of_down == starts_down(b, x as int, y as int));
            if is_start_of_across || is_start_of_down {
                proof {
                    lemma_rows_count(b, y as int, y as int);
                    lemma_row_count(b, y as int, x as int, x as int);
                    assert(y * width + x + 1 <= height * width) by (nonlinear_arith)
                        requires
                            y < height,
                            x < width,
                    ;
                }
                row_numbers.push(current_number);
                current_number += 1;
            } else {
                row_numbers.push(0);
            }
            x += 1;
        }
        numbered_cells.push(row_numbers);
        y += 1;
    }

    // Second pass: give each clue the number of its start square, and put it
    // in its place among the clues numbered so far.
    let ghost given = clues@;
    let mut sorted: Vec<Clue> = Vec::new();
    let mut i: usize = 0;
    assert(numbered(b, given).take(0) =~= Seq::<Clue>::empty());
    while i < clues.len()
        invariant
            b == cells(*grid),
            clues@ == given,
            given == old(clues)@,
            i <= clues.len(),
            numbered_cells@.len() == crate::board::height(b),
            forall|r: int|
                0 <= r < numbered_cells@.len() ==> (#[trigger] numbered_cells@[r])@.len()
                    == crate::board::width(b),
            forall|r: int, c: int|
                0 <= r < numbered_cells@.len() && 0 <= c < crate::board::width(b)
                    ==> #[trigger] numbered_cells@[r]@[c] == number_at(b, c, r),
            is_rectangular(b),
            forall|j: int|
                0 <= j < given.len() ==> in_bounds(b, (#[trigger] given[j]).x as int, given[j].y as int),
            sorted@ == by_number(numbered(b, given).take(i as int)),
        decreases clues.len() - i,
    {
        let clue = &clues[i];
        assert(in_bounds(b, given[i as int].x as int, given[i as int].y as int));
        assert(b[clue.y as int].len() == crate::board::width(b));
        let number = numbered_cells[clue.y][clue.x];
        let mut p: usize = 0;
        assert(sorted@.skip(0) =~= sorted@);
        loop
            invariant
                p <= sorted.len(),
                number_slot(sorted@, number) == p + number_slot(sorted@.skip(p as int), number),
            ensures
                p <= sorted.len(),
                number_slot(sorted@, number) == p,
            decreases sorted.len() - p,
        {
            if p >= sorted.len() {
                break;
            }
            if sorted[p].number > number {
                break;
            }
            assert(sorted@.skip(p as int).drop_first() =~= sorted@.skip(p as int + 1));
            p += 1;
        }
        let item = Clue {
            x: clue.x,
            y: clue.y,
            direction: clue.direction,
            base: BaseClue { clue: clue.base.clue.clone(), answer: clue.base.answer.clone() },
            number,
        };
        proof {
            assert(item == with_number(b, given[i as int]));
            let upto = numbered(b, given).take(i as int + 1);
            assert(upto.drop_last() =~= numbered(b, given).take(i as int));
            assert(upto.last() == item);
        }
        sorted.insert(p, item);
        i += 1;
    }
    proof {
        assert(numbered(b, given).take(given.len() as int) =~= numbered(b, given));
        let origin = law_by_number_is_stable(numbered(b, given));
    }
    *clues = sorted;
}

} // verus!
