//! Word ladders: shortest chains of dictionary words in which each word
//! differs from the one before it by a single edit.
//!
//! A [`WordList`] says which tokens are valid, a [`WordSearch`] joins a word
//! list with a start word and an end word and gives what a best-first search
//! asks of its problem: the start, the goal test, the estimate of what is
//! left, and the neighbours of a token.

pub mod distance;
pub mod edits;
pub mod laws;
pub mod recurrence;
pub mod search;
mod shards;
pub mod text;
pub mod word_list;

pub use crate::search::{WordSearch, ALPHABET, WORKERS};
pub use crate::word_list::{EnglishWordList, EspanolPalabras, WordList, ASPELL, WORDS_PATH};
