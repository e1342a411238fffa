//! Core of a fixed-length word-guessing game: the feedback evaluator that
//! classifies each guessed letter against a secret word, and the knowledge
//! tracker that accumulates what the guesses so far reveal about the secret.

pub mod feedback;
pub mod game;
pub mod soundness;
pub mod tracker;
pub mod words;
