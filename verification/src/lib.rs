//! A solver core for a Wordle-style game whose secrets are arithmetic
//! equations: three 1-2 digit operands, two binary operators, an equality
//! sign and the decimal digits of the result.  The crate evaluates candidate
//! equations, scores guesses against a secret, folds the feedback of past
//! rounds into per-symbol constraints, and searches for the next guess.

pub mod alphabet;
pub mod eval;
pub mod feedback;
pub mod index;
pub mod restrict;
pub mod digits;
pub mod rng;
pub mod secret;
pub mod guesser;
pub mod laws;
