//! What the matchup cache decides: the games a request still lacks.
//!
//! A stored row holds the first games of the deterministic stream for a pair
//! of decks and a base seed. A request for more games plays only the missing
//! suffix, from the seed right after the stored games, and merges it in.

use vstd::prelude::*;

use crate::simulator::{
    can_merge, keeps_stream, lemma_mock_keeps_stream, merged_result, mock_result, mock_stream,
    stream_step, MatchupResult,
};

verus! {

/// What to do for a request, given what the cache holds.
#[derive(Clone, Copy, Debug, PartialEq, Eq)]
pub enum CacheStep {
    /// The stored games are enough: answer with them.
    UseCached(MatchupResult),
    /// Play `missing` more games from `suffix_seed`, merge them into `cached`,
    /// store the merged row and answer with it.
    SimulateSuffix { cached: MatchupResult, missing: u32, suffix_seed: u64 },
}

/// The stored row, or no games at all.
pub open spec fn row_or_empty(row: Option<MatchupResult>) -> MatchupResult {
    match row {
        Some(r) => r,
        None => MatchupResult { games: 0, wins_a: 0, wins_b: 0, draws: 0 },
    }
}

pub open spec fn cache_step(row: Option<MatchupResult>, games: u32, base_seed: u64) -> CacheStep {
    let c = row_or_empty(row);
    if c.games >= games {
        CacheStep::UseCached(c)
    } else {
        CacheStep::SimulateSuffix {
            cached: c,
            missing: (games - c.games) as u32,
            suffix_seed: base_seed.wrapping_add(c.games),
        }
    }
}

/// Decides how to answer a request for at least `games` games. A stored row
/// with as many games or more is returned as it is: callers ask for a minimum,
/// and more evidence only sharpens the estimate.
pub fn plan_cached_simulation(row: Option<MatchupResult>, games: u32, base_seed: u64) -> (r:
    CacheStep)
    ensures
        r == cache_step(row, games, base_seed),
{
    let cached = match row {
        Some(r) => r,
        None => MatchupResult::default(),
    };
    if cached.games >= games as u64 {
        CacheStep::UseCached(cached)
    } else {
        CacheStep::SimulateSuffix {
            cached,
            missing: (games as u64 - cached.games) as u32,
            suffix_seed: base_seed.wrapping_add(cached.games),
        }
    }
}

/// Behind the cache, any arena that keeps the stream contract, and a stored
/// row that holds the first `n` games of the stream from `seed`: a request for
/// `games` games is answered with the first `n` games when they are enough,
/// and otherwise by playing exactly the `games - n` missing ones, from the
/// seed after the stored games, whose merge with the row is the first `games`
/// games of the stream.
pub proof fn law_cache_extends_stream(
    stream: spec_fn(u64, nat) -> MatchupResult,
    seed: u64,
    n: nat,
    games: u32,
)
    requires
        keeps_stream(stream),
        stream(seed, n).games == n,
        n + games <= u64::MAX,
    ensures
        match cache_step(Some(stream(seed, n)), games, seed) {
            CacheStep::UseCached(c) => n >= games && c == stream(seed, n),
            CacheStep::SimulateSuffix { cached, missing, suffix_seed } => {
                &&& n < games
                &&& missing == games - n
                &&& suffix_seed == seed.wrapping_add(n as u64)
                &&& can_merge(cached, stream(suffix_seed, missing as nat))
                &&& merged_result(cached, stream(suffix_seed, missing as nat)) == stream(
                    seed,
                    games as nat,
                )
            },
        },
{
    if n < games {
        let m: nat = (games - n) as nat;
        assert(stream_step(stream, seed, n, m));
        assert(n + m == games as nat);
    }
}

/// The mock arena behind the cache: the law above, for every pair of decks.
pub proof fn law_cache_extends_mock_stream(h: u64, seed: u64, n: nat, games: u32)
    requires
        n + games <= u64::MAX,
    ensures
        match cache_step(Some(mock_result(h, seed, n)), games, seed) {
            CacheStep::UseCached(c) => n >= games && c == mock_result(h, seed, n),
            CacheStep::SimulateSuffix { cached, missing, suffix_seed } => {
                &&& n < games
                &&& missing == games - n
                &&& can_merge(cached, mock_result(h, suffix_seed, missing as nat))
                &&& merged_result(cached, mock_result(h, suffix_seed, missing as nat))
                    == mock_result(h, seed, games as nat)
            },
        },
{
    lemma_mock_keeps_stream(h);
    law_cache_extends_stream(mock_stream(h), seed, n, games);
    assert(mock_stream(h)(seed, n) == mock_result(h, seed, n));
    assert(mock_stream(h)(seed, games as nat) == mock_result(h, seed, games as nat));
}

} // verus!
