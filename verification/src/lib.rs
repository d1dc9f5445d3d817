//! A text analysis engine for free-text survey answers.
//!
//! Given the answers to one question, the engine scores the sentiment of
//! each answer against a lexicon, groups the answers into themes by the
//! words they share, and summarises each theme as a short idea with the
//! number of answers behind it. The entry point is
//! [`analysis::analyze_answers`]; it reads a [`model::ModelResources`] and
//! is a function of its arguments alone.
//!
//! The modules, from the leaves up:
//!
//! - [`chars`], [`text`]: character classes, the normaliser and the
//!   tokenizer;
//! - [`wordset`]: sets of words that keep the order of insertion;
//! - [`wordlist`]: lists of words in the order of the dictionary, for
//!   looking up;
//! - [`model`]: the lexicon;
//! - [`sentiment`]: scores, labels and percentages;
//! - [`ratio`]: exact fractions of two counts;
//! - [`similarity`]: Jaccard similarity as an exact fraction;
//! - [`rank`]: the order of counted texts, and a sort by it;
//! - [`cluster`]: the greedy grouping of answers;
//! - [`ideas`]: the summary of each cluster, ranked;
//! - [`analysis`]: the whole analysis;
//! - [`envelope`], [`event`], [`config`]: the parts of the service around
//!   the engine that decide and compute on plain values.
//!
//! Scores and similarities are kept as the exact fractions that they are,
//! and are compared exactly.

pub mod analysis;
pub mod chars;
pub mod cluster;
pub mod config;
pub mod envelope;
pub mod event;
pub mod ideas;
pub mod model;
pub mod rank;
pub mod ratio;
pub mod sentiment;
pub mod similarity;
pub mod text;
pub mod wordlist;
pub mod wordset;
