use vstd::prelude::*;

use crate::clue::{Clue, Direction};
use crate::placement::{field_end, lemma_field_end_bounds, BaseClue};
use crate::text::letters_of;

verus! {

/// `std::num::ParseIntError` of the standard library, made known so that a
/// parse error can carry one. Nothing is claimed of what it holds.
#[verifier::external_type_specification]
#[verifier::external_body]
pub struct ExParseIntError(std::num::ParseIntError);

/// What can be wrong with the text of a placed clue.
#[derive(Debug)]
pub enum ClueParseError {
    /// The character after the column is neither `D` nor `A`.
    InvalidDirection(char),
    /// A character that the form asks for is not there.
    MissingCharacter,
    /// A coordinate is not a number that fits.
    NumberParseError(std::num::ParseIntError),
    /// The text ends before the clue is complete.
    UnexpectedEndOfInput,
}

/// The part of a placed clue's text that is being read.
#[derive(Eq, PartialEq, Debug, Structural)]
pub enum State {
    InX,
    InY,
    InDirection,
    InClue,
    InAnswer,
}

/// The character is one of `0` to `9`.
pub open spec fn is_digit(c: char) -> bool {
    '0' <= c <= '9'
}

/// The value of a digit character.
pub open spec fn digit_value(c: char) -> nat {
    (c as int - '0' as int) as nat
}

/// The index of the first character at or after `from` that is no digit, or
/// the text's length where all are digits.
pub open spec fn digits_end(hint: Seq<char>, from: int) -> int
    decreases hint.len() - from,
{
    if from >= hint.len() {
        hint.len() as int
    } else if !is_digit(hint[from]) {
        from
    } else {
        digits_end(hint, from + 1)
    }
}

/// The number that a run of digits stands for; 0 for the empty run.
pub open spec fn number_value(digits: Seq<char>) -> nat
    decreases digits.len(),
{
    if digits.len() == 0 {
        0
    } else {
        number_value(digits.drop_last()) * 10 + digit_value(digits.last())
    }
}

/// What the text of a placed clue says.
pub struct Reading {
    pub x: nat,
    pub y: nat,
    pub direction: Direction,
    pub clue: Seq<char>,
    pub answer: Seq<char>,
}

/// Reads a placed clue of the form column, `D` or `A`, row, clue, `;`,
/// answer. The column and the row are runs of digits, which may be empty; the
/// clue runs up to the first `;` behind the row, the answer from there to the
/// end. A text that ends early leaves the parts not reached at 0, Across and
/// empty.
pub open spec fn reading(hint: Seq<char>) -> Reading {
    let x_end = digits_end(hint, 0);
    let x = number_value(hint.subrange(0, x_end));
    if x_end >= hint.len() {
        Reading {
            x,
            y: 0,
            direction: Direction::Across,
            clue: Seq::<char>::empty(),
            answer: Seq::<char>::empty(),
        }
    } else {
        let y_end = digits_end(hint, x_end + 1);
        let clue_end = field_end(hint, y_end);
        Reading {
            x,
            y: number_value(hint.subrange(x_end + 1, y_end)),
            direction: if hint[x_end] == 'D' {
                Direction::Down
            } else {
                Direction::Across
            },
            clue: hint.subrange(y_end, clue_end),
            answer: if clue_end < hint.len() {
                hint.subrange(clue_end + 1, hint.len() as int)
            } else {
                Seq::<char>::empty()
            },
        }
    }
}

/// The text can be read: where a direction stands it is `D` or `A`, and the
/// column and the row fit in `usize`.
pub open spec fn is_readable(hint: Seq<char>) -> bool {
    let x_end = digits_end(hint, 0);
    &&& number_value(hint.subrange(0, x_end)) <= usize::MAX
    &&& x_end < hint.len() ==> {
        &&& (hint[x_end] == 'D' || hint[x_end] == 'A')
        &&& number_value(hint.subrange(x_end + 1, digits_end(hint, x_end + 1))) <= usize::MAX
    }
}

/// A run of digits ends at or after its start and within the text.
pub proof fn lemma_digits_end_bounds(hint: Seq<char>, from: int)
    requires
        0 <= from <= hint.len(),
    ensures
        from <= digits_end(hint, from) <= hint.len(),
    decreases hint.len() - from,
{
    if from < hint.len() && is_digit(hint[from]) {
        lemma_digits_end_bounds(hint, from + 1);
    }
}

/// A longer run of digits from the same start stands for no smaller number.
pub proof fn lemma_number_grows(hint: Seq<char>, from: int, shorter: int, longer: int)
    requires
        0 <= from <= shorter <= longer <= hint.len(),
    ensures
        number_value(hint.subrange(from, shorter)) <= number_value(hint.subrange(from, longer)),
    decreases longer - shorter,
{
    if shorter < longer {
        lemma_number_grows(hint, from, shorter, longer - 1);
        assert(hint.subrange(from, longer).drop_last() =~= hint.subrange(from, longer - 1));
    }
}

/// Reads the run of digits that starts at `from`. The result is the index
/// where the run ends and the number it stands for, or nothing where the
/// number does not fit in `usize`.
fn read_number(chars: &Vec<char>, from: usize) -> (run: Option<(usize, usize)>)
    requires
        from <= chars.len(),
    ensures
        match run {
            Some((end, value)) => {
                &&& end == digits_end(chars@, from as int)
                &&& value == number_value(chars@.subrange(from as int, end as int))
            },
            None => number_value(chars@.subrange(from as int, digits_end(chars@, from as int)))
                > usize::MAX,
        },
{
    let ghost end = digits_end(chars@, from as int);
    let mut value: usize = 0;
    let mut index = from;
    proof {
        lemma_digits_end_bounds(chars@, from as int);
        assert(chars@.subrange(from as int, from as int) =~= Seq::<char>::empty());
    }
    while index < chars.len()
        invariant
            from <= index <= end <= chars.len(),
            end == digits_end(chars@, from as int),
            end == digits_end(chars@, index as int),
            value == number_value(chars@.subrange(from as int, index as int)),
        ensures
            index == end,
            value == number_value(chars@.subrange(from as int, index as int)),
        decreases chars.len() - index,
    {
        let c = chars[index];
        if !(c >= '0' && c <= '9') {
            break;
        }
        proof {
            assert(chars@.subrange(from as int, index as int + 1).drop_last() =~= chars@.subrange(
                from as int,
                index as int,
            ));
            lemma_digits_end_bounds(chars@, index as int + 1);
            lemma_number_grows(chars@, from as int, index as int + 1, end);
        }
        let digit = (c as u32 - '0' as u32) as usize;
        match value.checked_mul(10) {
            None => {
                return None;
            },
            Some(tens) => match tens.checked_add(digit) {
                None => {
                    return None;
                },
                Some(next) => {
                    value = next;
                },
            },
        }
        index += 1;
    }
    Some((index, value))
}

/// Whether the text can be read, which `read_clue` asks of it.
pub fn can_read_clue(hint: &str) -> (ok: bool)
    ensures
        ok == is_readable(hint@),
{
    let chars = letters_of(hint);
    match read_number(&chars, 0) {
        None => false,
        Some((x_end, _)) => {
            if x_end >= chars.len() {
                return true;
            }
            let c = chars[x_end];
            if c != 'D' && c != 'A' {
                return false;
            }
            read_number(&chars, x_end + 1).is_some()
        },
    }
}

/// Reads the text of a placed clue.
pub fn read_clue(hint: String) -> (clue: Clue)
    requires
        is_readable(hint@),
    ensures
        clue.x == reading(hint@).x,
        clue.y == reading(hint@).y,
        clue.direction == reading(hint@).direction,
        clue.base.clue@ == reading(hint@).clue,
        clue.base.answer@ == reading(hint@).answer,
        clue.number == 1,
{
    let ghost text = hint@;
    let ghost x_end = digits_end(text, 0);
    let ghost y_end = digits_end(text, x_end + 1);
    let ghost clue_end = field_end(text, y_end);
    let mut state: State = State::InX;
    let mut x: usize = 0;
    let mut y: usize = 0;
    let mut direction = Direction::Across;
    let mut clue_text = String::new();
    let mut answer_text = String::new();

    let chars: Vec<char> = letters_of(hint.as_str());
    let mut index: usize = 0;
    proof {
        lemma_digits_end_bounds(text, 0);
        assert(text.subrange(0, 0) =~= Seq::<char>::empty());
    }
    while index < chars.len()
        invariant
            chars@ == text,
            is_readable(text),
            x_end == digits_end(text, 0),
            y_end == digits_end(text, x_end + 1),
            clue_end == field_end(text, y_end),
            0 <= x_end <= text.len(),
            index <= text.len(),
            match state {
                State::InX => {
                    &&& index <= x_end
                    &&& x_end == digits_end(text, index as int)
                    &&& x == number_value(text.subrange(0, index as int))
                    &&& y == 0
                    &&& direction == Direction::Across
                    &&& clue_text@ == Seq::<char>::empty()
                    &&& answer_text@ == Seq::<char>::empty()
                },
                State::InDirection => {
                    &&& index == x_end
                    &&& x_end < text.len()
                    &&& x == number_value(text.subrange(0, x_end))
                    &&& y == 0
                    &&& clue_text@ == Seq::<char>::empty()
                    &&& answer_text@ == Seq::<char>::empty()
                },
                State::InY => {
                    &&& x_end < index <= y_end <= text.len()
                    &&& y_end == digits_end(text, index as int)
                    &&& x == number_value(text.subrange(0, x_end))
                    &&& y == number_value(text.subrange(x_end + 1, index as int))
                    &&& direction == reading(text).direction
                    &&& clue_text@ == Seq::<char>::empty()
                    &&& answer_text@ == Seq::<char>::empty()
                },
                State::InClue => {
                    &&& x_end < y_end <= index <= clue_end <= text.len()
                    &&& clue_end == field_end(text, index as int)
                    &&& x == number_value(text.subrange(0, x_end))
                    &&& y == number_value(text.subrange(x_end + 1, y_end))
                    &&& direction == reading(text).direction
                    &&& clue_text@ == text.subrange(y_end, index as int)
                    &&& answer_text@ == Seq::<char>::empty()
                },
                State::InAnswer => {
                    &&& x_end < y_end <= clue_end < index
                    &&& x == number_value(text.subrange(0, x_end))
                    &&& y == number_value(text.subrange(x_end + 1, y_end))
                    &&& direction == reading(text).direction
                    &&& clue_text@ == text.subrange(y_end, clue_end)
                    &&& answer_text@ == text.subrange(clue_end + 1, index as int)
                },
            },
        decreases
                text.len() - index,
                (if state == State::InX || state == State::InY {
                    1int
                } else {
                    0int
                }),
    {
        let c = chars[index];
        match state {
            State::InX => {
                if c >= '0' && c <= '9' {
                    proof {
                        assert(text.subrange(0, index as int + 1).drop_last() =~= text.subrange(
                            0,
                            index as int,
                        ));
                        lemma_digits_end_bounds(text, index as int + 1);
                        lemma_number_grows(text, 0, index as int + 1, x_end);
                    }
                    x = x * 10 + (c as u32 - '0' as u32) as usize;
                } else {
                    state = State::InDirection;
                    continue ;  // Reprocess this character as the direction
                }
            },
            State::InY => {
                if c >= '0' && c <= '9' {
                    proof {
                        assert(text.subrange(x_end + 1, index as int + 1).drop_last()
                            =~= text.subrange(x_end + 1, index as int));
                        lemma_digits_end_bounds(text, index as int + 1);
                        lemma_number_grows(text, x_end + 1, index as int + 1, y_end);
                    }
                    y = y * 10 + (c as u32 - '0' as u32) as usize;
                } else {
                    proof {
                        lemma_field_end_bounds(text, y_end);
                        assert(text.subrange(y_end, y_end) =~= Seq::<char>::empty());
                    }
                    state = State::InClue;
                    continue ;  // Reprocess this character as part of the clue
                }
            },
            State::InDirection => {
                direction = if c == 'D' {
                    Direction::Down
                } else {
                    Direction::Across
                };
                proof {
                    lemma_digits_end_bounds(text, x_end + 1);
                    assert(text.subrange(x_end + 1, x_end + 1) =~= Seq::<char>::empty());
                }
                state = State::InY;
            },
            State::InClue => {
                if c == ';' {
                    assert(text.subrange(clue_end + 1, clue_end + 1) =~= Seq::<char>::empty());
                    state = State::InAnswer;
                } else {
                    proof {
                        lemma_field_end_bounds(text, index as int + 1);
                        assert(text.subrange(y_end, index as int).push(c) =~= text.subrange(
                            y_end,
                            index as int + 1,
                        ));
                    }
                    clue_text.push(c);
                }
            },
            State::InAnswer => {
                assert(text.subrange(clue_end + 1, index as int).push(c) =~= text.subrange(
                    clue_end + 1,
                    index as int + 1,
                ));
                answer_text.push(c);
            },
        }
        index += 1;
    }
    proof {
        if x_end < text.len() {
            lemma_digits_end_bounds(text, x_end + 1);
            lemma_field_end_bounds(text, y_end);
        }
        match state {
            State::InY => {
                assert(text.subrange(y_end, clue_end) =~= Seq::<char>::empty());
            },
            _ => {},
        }
    }
    Clue {
        x,
        y,
        number: 1,
        direction,
        base: BaseClue { clue: clue_text, answer: answer_text },
    }
}

} // verus!
