//! A first-order Markov chain over tokens drawn from a text corpus.
//!
//! The library tokenizes corpus text with a configurable pattern rule,
//! counts token frequencies, builds a vocabulary ranked by descending
//! frequency, accumulates a token-transition occurrence matrix, normalizes
//! it into a row-stochastic probability matrix (kept as exact rationals:
//! each row carries its integer counts and their sum), and finally walks
//! the chain by sampling successors at random.
//!
//! File and terminal input/output stay outside the library: callers hand
//! in file contents and configuration as plain values.

pub mod config;
pub mod corpora;
pub mod counts;
pub mod markov_chain;
pub mod tokenizer;
