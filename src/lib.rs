//! A small expression language: `print` followed by one expression built from
//! integer literals and parenthesised sums and products.
//!
//! The pipeline is lexer ([`lexer`]), recursive-descent parser ([`parser`]) and
//! tree-walk evaluator ([`eval`]). Each stage is specified by spec functions over
//! the source text viewed as a `Seq<char>`.
//!
//! Overflow is an error throughout: a literal above `i64::MAX` is a
//! `NumericOverflow` lexical error, and evaluation returns `None` when any
//! subexpression's value leaves the `i64` range. [`properties`] states and proves
//! the laws that relate the stages.
pub mod lexer;
pub mod parser;
pub mod eval;
pub mod properties;
