//! A heuristic solver core for five-letter word-guessing puzzles with
//! positional feedback (absent / present-elsewhere / correct).
//!
//! The crate provides the feedback codec (base-3 integer encoding of a
//! five-digit feedback pattern), the duplicate-letter-aware guess scorer,
//! the candidate-set narrowing step, and the feedback-outcome distribution
//! that entropy ranking is computed from. Floating-point concerns
//! (likelihood curve, entropy in bits) live with the caller; the candidate
//! set carries each word's likelihood as an opaque weight.

pub mod codec;
pub mod scorer;
pub mod candidates;
pub mod ranker;
