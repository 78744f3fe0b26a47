//! Kinds of opponents in a pool.
//!
//! The weighted pool itself holds floating-point weights and lives outside
//! the verified library.

use vstd::prelude::*;

verus! {

/// Where an opponent deck comes from.
#[derive(Clone, Copy, Debug, PartialEq, Eq)]
pub enum OpponentKind {
    CurrentMeta,
    Historical,
    AiChampion,
    Adversarial,
    DiverseGenerated,
    Holdout,
}

} // verus!
