//! A minimal pattern-matching engine.
//!
//! A pattern string is parsed into a sequence of tokens: literal runs,
//! parenthesised one-of groups such as `(one|two|three)`, and the
//! single-character wildcard `.`. A parsed matcher is then matched
//! greedily, left to right and without backtracking, against candidate
//! strings, returning the tokens it matched together with the exact
//! substring each token consumed.

pub mod laws;
pub mod matcher;
pub mod model;
pub mod words;

pub use matcher::Matcher;
pub use matcher::MatcherToken;
pub use words::WordIterator;
