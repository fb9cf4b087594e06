//! A word-search puzzle builder: words are placed on a rectangular grid of
//! cells along straight lines (horizontal, vertical or diagonal), words may
//! cross where their letters agree, and a backtracking search fills the grid
//! from a word list, undoing earlier placements when a later word cannot fit.

pub mod difficulty;
pub mod field;
pub mod puzzle;
pub mod rng;
