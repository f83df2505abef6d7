//! Crossword layout: places answers on a square grid so that words only meet
//! at matching letters, numbers the placed clues and draws the grid.
//!
//! The clues are ordered longest answer first (`clue_sorting`), placed by a
//! backtracking search on the smallest grid that takes them (`placement`,
//! with the rule of placement in `can_place`), and numbered in the usual way
//! (`clue_numbering`). `layout` says what a layout is and which one the search
//! finds; `laws` proves what holds of every layout, and `outcome` what holds
//! of the clues that are returned. `grid` measures and draws the result,
//! `input_parser` reads the text of a placed clue.

pub mod board;
pub mod can_place;
pub mod clue;
pub mod clue_numbering;
pub mod clue_sorting;
pub mod grid;
pub mod input_parser;
pub mod laws;
pub mod layout;
pub mod outcome;
pub mod placement;
pub mod text;
