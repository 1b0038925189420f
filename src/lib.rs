//! A verified lexical scanner for a small dynamic scripting language.
//!
//! The executable scanner in [`scanner`] is proved to produce exactly the
//! token sequence that the recursive lexer of [`model`] describes; [`laws`]
//! states and proves what holds of every such sequence.

pub mod chars;
pub mod laws;
pub mod model;
pub mod scanner;
pub mod token;

pub use scanner::{ScanResult, Scanner};
pub use token::{Literal, ScanError, Token, TokenType};
