//! Subword vocabulary building by iterative pair merging.
//!
//! A text is first cut into one token per character. The engine then picks
//! the most frequent pair of neighbouring tokens, the first to reach the
//! highest count in a walk along the sequence, merges every occurrence of it
//! into a new token, and goes on until no pair is left or a fixed number of
//! merges has been made.
//!
//! - [`token`] holds the vocabulary: the tokens by identifier and the lookup
//!   of a token by its string value.
//! - [`chain`] holds the sequence: an arena of positions and the doubly-linked
//!   chain of the live ones.
//! - [`pairs`] holds the tracker of pair counts.
//! - [`scan`] counts the pairs of a sequence and picks the pair to merge.
//! - [`merge`] merges one pair over the whole sequence.
//! - [`tokenizer`] cuts a text and runs the loop.
//! - [`model`], [`select`] and [`pass`] hold the mathematical side: what a
//!   merge makes of a sequence, which pair is picked, and how far a merge
//!   pass has come.
//! - [`laws`] states what holds of every merge and of every run.

pub mod chain;
pub mod laws;
pub mod merge;
pub mod model;
pub mod pairs;
pub mod pass;
pub mod scan;
pub mod select;
pub mod token;
pub mod tokenizer;
