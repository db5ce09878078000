//! Alignment of a transcript with timed words: the integer and text logic
//! of the search over windows of a word-similarity grid, verified with Verus.
pub mod distance;
pub mod grid;
pub mod names;
pub mod path;
pub mod text;
pub mod timing;
pub mod windows;
