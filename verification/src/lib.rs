//! Robust deck search for Pokémon TCG Pocket: the verified core.

pub mod cache;
pub mod deck_text;
pub mod deckgym_adapter;
pub mod deckgym_registry;
pub mod domain;
pub mod evaluator;
pub mod keyed;
pub mod limitless;
pub mod opponents;
pub mod search;
pub mod simulator;
pub mod text;
