//! The wordlist data model: list metadata and the roll-key-to-word mapping.

use vstd::prelude::*;
use std::collections::HashMap;

verus! {

broadcast use vstd::std_specs::hash::group_hash_axioms;

/// Whether `k` reads, in decimal, as exactly `r` die faces: `r` digits, each
/// between one and six.
pub open spec fn valid_key(k: int, r: nat) -> bool
    decreases r,
{
    if r == 0 {
        k == 0
    } else {
        1 <= k % 10 <= 6 && valid_key(k / 10, (r - 1) as nat)
    }
}

/// A named, fixed collection of words indexed by dice-roll key.
#[derive(Debug)]
pub struct WordList {
    /// Human-readable list identifier.
    pub name: String,
    /// Human-readable summary.
    pub description: String,
    /// Tokens usable for selecting this list.
    pub short_names: Vec<String>,
    /// How many dice are rolled to produce one word-selecting key.
    pub rolls: u8,
    /// The mapping from roll key to word.
    pub list: HashMap<u32, String>,
}

impl WordList {
    /// `rolls` is a small positive count; nine is the most whose keys a `u32`
    /// can hold.
    pub open spec fn rolls_in_range(&self) -> bool {
        1 <= self.rolls <= 9
    }

    /// The dataset invariant: every key the dice can produce has a word.
    pub open spec fn complete(&self) -> bool {
        forall|k: u32| valid_key(k as int, self.rolls as nat) ==> self.list@.contains_key(k)
    }

    /// A well-formed wordlist: a roll count in range and a complete mapping.
    pub open spec fn wf(&self) -> bool {
        self.rolls_in_range() && self.complete()
    }

    /// Look `n` up in the list's mapping. `None` is the data-integrity fault:
    /// a correctly built dataset answers every key `roll` can produce.
    pub fn get(&self, n: u32) -> (r: Option<&String>)
        ensures
            match r {
                Some(w) => self.list@.contains_key(n) && *w == self.list@[n],
                None => !self.list@.contains_key(n),
            },
    {
        self.list.get(&n)
    }

    /// How many words the list holds.
    pub fn word_count(&self) -> (n: usize)
        ensures
            n == self.list@.len(),
    {
        self.list.len()
    }
}

} // verus!
