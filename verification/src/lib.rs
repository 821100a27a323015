//! An evaluator for a tiny postfix language whose only values are booleans.
//!
//! A program is a sequence of words. Each word is a truth-table literal, a
//! stack-shuffling combinator, or an alias for one of those. Every executable
//! function carries a contract stated over mathematical sequences, and the
//! laws that tie the functions together are proved beside them.

pub mod rows;
pub mod text;
pub mod literal;
pub mod combinator;
pub mod dictionary;
pub mod expression;
pub mod evaluator;
