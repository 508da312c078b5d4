//! A square jigsaw puzzle: pieces whose edges interlock by construction,
//! and an exhaustive backtracking search for every way to reassemble them.

pub mod settings;
pub mod random;
pub mod pieces;
pub mod grid;
pub mod jigsaw;
pub mod search;
pub mod retry;
pub mod laws;
