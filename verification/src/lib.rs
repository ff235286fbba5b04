//! A simulator for a word-guessing game: a strategy proposes five-letter words, and
//! each guess is scored against a hidden answer until the answer is named or the
//! rounds run out.

pub mod dictionary;
pub mod game;
pub mod scoring;
pub mod tally;
pub mod word;

pub use game::{Guess, Guesser, InvalidGuess, State, Wordle, MAX_GUESSES};
pub use scoring::Correctness;
pub use word::WORD_LEN;
