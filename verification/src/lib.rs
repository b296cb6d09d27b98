//! Article text analysis and link chasing.
//!
//! The crate holds the text-processing core of a small encyclopedia
//! browser: a parenthetical-content stripper that works on grapheme
//! clusters, a Latin-word frequency counter that folds case and keeps
//! the distinct surface forms of each word, a stable ranking of the
//! counted words, a renderer for the ranked table, and a bounded
//! walker that follows the first qualifying article link from page to
//! page until it reaches its target, detects a cycle, or runs out of
//! pages or steps.

pub mod numbers;
pub mod ranking;
pub mod render;
pub mod stripper;
pub mod text;
pub mod walker;
pub mod words;
