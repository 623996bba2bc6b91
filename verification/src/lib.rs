//! A line-oriented tokenizer for a small declaration language.
//!
//! The input text is split into lines; each non-empty line (after trimming
//! surrounding whitespace) becomes exactly one token: a comment, a version
//! specifier, a namespace declaration, or a plain identifier.

pub mod lines;
pub mod semver_support;
pub mod tokenizer;
