//! A context-sensitive Markov model over token streams of short documents.
//!
//! The pipeline lexes raw text into literal, emoji, and function-marker
//! tokens, repairs unbalanced markers into literals, merges literal runs,
//! folds the stream into transition and parameter frequency tables, and
//! samples new documents from those tables with a depth-bounded walk.

pub mod builder;
pub mod generator;
mod outside;
pub mod lexer;
pub mod repair;
pub mod tokens;
