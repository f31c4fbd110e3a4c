//! Reflowing of structured text: prose paragraphs are unwrapped and wrapped
//! again to a column width, everything else passes through unchanged.

pub mod text;
pub mod words;
pub mod tokenize;
pub mod wrap;
pub mod syntax;
pub mod classify;
pub mod unwrap;
pub mod reflow;
pub mod strings;
pub mod laws;
pub mod cli;

pub use crate::reflow::{reflow, reformat, rewrap_lines};
pub use crate::syntax::Syntax;
