//! A solver core for a fixed-length word-guessing game.
//!
//! The library has two parts: a feedback comparator, which scores a guess
//! against a target word and encodes the per-position feedback as a base-3
//! ordinal, and a guess selector, which evaluates every vocabulary word
//! against a pool of remaining candidates and picks the word that minimizes
//! the expected size of the pool after the guess.

pub mod compare;
pub mod next_guess;
pub mod word_set;
