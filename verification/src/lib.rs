//! Diceware-style passphrase generation: named wordlists indexed by dice-roll
//! keys, and a casing engine that formats each word of a passphrase.

pub mod casing;
pub mod dice;
pub mod list;
pub mod unicode;

pub use casing::Casing;
pub use dice::DieSource;
pub use dice::FixedDice;
pub use dice::RandomDice;
pub use list::logic::key_from_faces;
pub use list::logic::word_list;
pub use list::model::WordList;
