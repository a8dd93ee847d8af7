//! A live text reflow engine for an editing surface of changing width and
//! font size. It brings line endings into one convention, breaks paragraphs
//! into display lines that fit a budget of characters, keeps the breaks it
//! made apart from the author's own, so that wrapping can be repeated, and
//! keeps the caret with its character through every wrapping.
//!
//! Text is counted in characters throughout, never in bytes or in columns.
//!
//! The conventions, each stated where it is defined:
//! - A line end of the author is one line feed. A line end made by wrapping
//!   is the marker `marker::SOFT_BREAK` followed by a line feed.
//! - A line is broken only in front of a word that follows a space. The
//!   spaces stay where they are, at the end of the line in front of the
//!   break, and do not count against the budget. Wrapping therefore neither
//!   drops nor adds a character of the author's, and taking the soft breaks
//!   out gives the author's text back exactly.
//! - A word longer than the budget gets a line of its own and is not cut.
//! - A caret that stands where a line is broken stays at the end of the line
//!   in front of the break.

pub mod context;
pub mod display;
pub mod font;
pub mod laws;
pub mod marker;
pub mod normalize;
pub mod paragraph;
pub mod reflow;
pub mod trigger;
pub mod window;
pub mod wrap;
