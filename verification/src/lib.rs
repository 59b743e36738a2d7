//! A calculator's text engine: tokenizing, parsing and name resolution for
//! arithmetic expressions, the history of evaluated lines, syntax classes for
//! highlighting, and digit grouping of number literals.
pub mod calc;
pub mod chars;
pub mod grouping;
pub mod syntax;
