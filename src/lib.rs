//! A single-pass scanner for a small dynamically typed scripting language.
//!
//! The scanner turns source text into a sequence of classified tokens, each
//! carrying the line on which it started. Its behaviour is described by the
//! spec function [`lexicon::lex`], and the executable scanner in [`scanner`]
//! is proved to agree with it.
pub mod cursor;
pub mod error;
pub mod laws;
pub mod lexicon;
pub mod scanner;
pub mod token;
