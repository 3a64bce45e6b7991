//! Wordlists: the data model and the dice-roll-to-word generation algorithm.

pub mod logic;
pub mod model;

pub use model::WordList;
