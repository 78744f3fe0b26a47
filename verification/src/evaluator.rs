//! The integer side of deck evaluation: the seed of each matchup.
//!
//! Win rates, confidence bounds and tail means are floating-point and are
//! computed outside the verified library.

use vstd::prelude::*;

use crate::domain::{canonical_text, Deck};
use crate::simulator::{stable_hash, text_hash};

verus! {

/// The base seed of the matchup between `deck` and the opponent at
/// `opponent_index`: the master seed plus the index plus the stable hash of
/// the deck's canonical key, all wrapping.
pub open spec fn matchup_seed_spec(master_seed: u64, opponent_index: u64, deck_key: Seq<char>) -> u64 {
    master_seed.wrapping_add(opponent_index).wrapping_add(text_hash(deck_key))
}

pub fn matchup_seed(master_seed: u64, opponent_index: usize, deck: &Deck) -> (r: u64)
    ensures
        r == matchup_seed_spec(
            master_seed,
            opponent_index as u64,
            canonical_text(deck.entries(), deck.energies()),
        ),
{
    let key = deck.canonical_key();
    master_seed.wrapping_add(opponent_index as u64).wrapping_add(stable_hash(key.as_str()))
}

} // verus!
