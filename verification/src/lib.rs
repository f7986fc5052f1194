//! Two line puzzles, each with its reading of a line of text and its sum
//! over the lines of a file, proved against a model of the text as a
//! sequence of characters.
//!
//! `scanner` finds the first and the last number in a line, written as a
//! digit or spelled out, and makes a two-digit number of them. `games` reads
//! records of cube games and asks which are possible and what each needs.
//! `text` holds what both read with: matching, splitting, trimming, numbers.

pub mod games;
pub mod scanner;
pub mod text;
