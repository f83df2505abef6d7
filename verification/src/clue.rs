use vstd::prelude::*;
use vstd::string::StringExecFns;

use crate::placement::BaseClue;
use crate::text::{decimal, decimal_string};

verus! {

/// The two orthogonal directions in which an answer can run.
#[derive(PartialEq, Eq, Structural, Debug, Clone, Copy)]
pub enum Direction {
    Down,
    Across,
}

impl Direction {
    /// The other direction.
    pub open spec fn turned(self) -> Direction {
        match self {
            Direction::Across => Direction::Down,
            Direction::Down => Direction::Across,
        }
    }

    /// The direction's name.
    pub open spec fn name(self) -> Seq<char> {
        match self {
            Direction::Down => "Down"@,
            Direction::Across => "Across"@,
        }
    }

    /// The direction's name as text.
    pub fn to_text(&self) -> (text: String)
        ensures
            text@ == self.name(),
    {
        match self {
            Direction::Down => String::from_str("Down"),
            Direction::Across => String::from_str("Across"),
        }
    }

    /// Whether the direction is `Across`.
    pub fn is_across(&self) -> (across: bool)
        ensures
            across == (*self == Direction::Across),
    {
        match self {
            Direction::Across => true,
            Direction::Down => false,
        }
    }
}

/// Where an answer starts and which way it runs, as mathematical values.
pub struct Spot {
    pub x: int,
    pub y: int,
    pub direction: Direction,
}

/// A clue placed on the grid: its start cell, its direction and, once the
/// grid has been numbered, its crossword number.
#[derive(PartialEq, Eq, Debug)]
pub struct Clue {
    pub x: usize,
    pub y: usize,
    pub direction: Direction,
    pub base: BaseClue,
    pub number: usize,
}

impl Clue {
    /// The start cell and direction of the clue.
    pub open spec fn spot(self) -> Spot {
        Spot { x: self.x as int, y: self.y as int, direction: self.direction }
    }

    /// The characters of the clue's answer.
    pub open spec fn word(self) -> Seq<char> {
        self.base.answer@
    }

    /// The clue in one piece of text: its start, its direction and its clue on
    /// one line, its answer indented on the next.
    pub open spec fn description(self) -> Seq<char> {
        "("@ + decimal(self.x as nat) + ","@ + decimal(self.y as nat) + ") "@
            + self.direction.name() + ": "@ + self.base.clue@ + "\n\t"@ + self.base.answer@
    }

    /// Writes the clue as text.
    pub fn to_text(&self) -> (text: String)
        ensures
            text@ == self.description(),
    {
        let text = String::from_str("(");
        let text = text.concat(decimal_string(self.x).as_str());
        let text = text.concat(",");
        let text = text.concat(decimal_string(self.y).as_str());
        let text = text.concat(") ");
        let text = text.concat(self.direction.to_text().as_str());
        let text = text.concat(": ");
        let text = text.concat(self.base.clue.as_str());
        let text = text.concat("\n\t");
        text.concat(self.base.answer.as_str())
    }
}

} // verus!
