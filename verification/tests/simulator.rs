use pocketlab::cache::{plan_cached_simulation, CacheStep};
use pocketlab::domain::{CardId, Deck};
use pocketlab::evaluator::matchup_seed;
use pocketlab::simulator::{stable_hash, DeterministicMockArena, MatchupResult, SimulationArena};
use std::cell::Cell;
use std::collections::HashMap;

fn deck(id: &str) -> Deck {
    Deck::new(vec![(CardId(id.into()), 20)], vec!["Water".into()])
}

#[test]
fn deterministic_stream_can_be_extended_by_seed_offset() {
    let arena = DeterministicMockArena;
    let a = deck("A-001");
    let b = deck("B-001");
    let first = arena.simulate(&a, &b, 10, 50);
    let suffix = arena.simulate(&a, &b, 15, 60);
    let whole = arena.simulate(&a, &b, 25, 50);
    assert_eq!(first.merged(&suffix).games, whole.games);
    assert_eq!(first.merged(&suffix).wins_a, whole.wins_a);
    assert_eq!(first.merged(&suffix).wins_b, whole.wins_b);
}

#[test]
fn mock_stream_merge_equals_whole_stream_for_many_splits() {
    let arena = DeterministicMockArena;
    let a = deck("A-001");
    let b = deck("B-001");
    let whole = arena.simulate(&a, &b, 40, u64::MAX - 5);
    for n in 0..=40u32 {
        let head = arena.simulate(&a, &b, n, u64::MAX - 5);
        let tail = arena.simulate(&a, &b, 40 - n, (u64::MAX - 5).wrapping_add(n as u64));
        assert_eq!(head.merged(&tail), whole);
    }
    assert_eq!(whole.games, 40);
    assert_eq!(whole.draws, 0);
    assert_eq!(whole.wins_a + whole.wins_b, 40);
}

#[test]
fn merged_adds_every_count() {
    let a = MatchupResult { games: 3, wins_a: 1, wins_b: 1, draws: 1 };
    let b = MatchupResult { games: 4, wins_a: 2, wins_b: 0, draws: 2 };
    assert_eq!(a.merged(&b), MatchupResult { games: 7, wins_a: 3, wins_b: 1, draws: 3 });
    assert_eq!(MatchupResult::default().merged(&a), a);
}

#[test]
fn stable_hash_is_fnv1a() {
    assert_eq!(stable_hash(""), 0xcbf29ce484222325);
    assert_eq!(stable_hash("a"), 0xaf63dc4c8601ec8c);
    assert_eq!(stable_hash("foobar"), 0x85944171f73967e8);
}

#[test]
fn matchup_seed_adds_index_and_deck_hash() {
    let d = deck("A-001");
    let h = stable_hash(&d.canonical_key());
    assert_eq!(matchup_seed(7, 3, &d), 10u64.wrapping_add(h));
    assert_eq!(matchup_seed(u64::MAX, 1, &d), h);
}

struct CountingArena {
    games_executed: Cell<u64>,
}

impl SimulationArena for CountingArena {
    fn simulate(&self, _a: &Deck, _b: &Deck, games: u32, seed: u64) -> MatchupResult {
        self.games_executed.set(self.games_executed.get() + games as u64);
        let wins_a = (0..games)
            .filter(|index| seed.wrapping_add(*index as u64) % 2 == 0)
            .count() as u64;
        MatchupResult { games: games as u64, wins_a, wins_b: games as u64 - wins_a, draws: 0 }
    }
}

/// The cache's decisions, run against a map in place of SQLite.
fn cached_simulate(
    store: &mut HashMap<(String, String, String, u64), MatchupResult>,
    inner: &CountingArena,
    namespace: &str,
    a: &Deck,
    b: &Deck,
    games: u32,
    base_seed: u64,
) -> MatchupResult {
    let key = (namespace.to_string(), a.canonical_key(), b.canonical_key(), base_seed);
    match plan_cached_simulation(store.get(&key).copied(), games, base_seed) {
        CacheStep::UseCached(cached) => cached,
        CacheStep::SimulateSuffix { cached, missing, suffix_seed } => {
            let suffix = inner.simulate(a, b, missing, suffix_seed);
            let combined = cached.merged(&suffix);
            store.insert(key, combined);
            combined
        }
    }
}

#[test]
fn only_simulates_missing_suffix() {
    let mut store = HashMap::new();
    let arena = CountingArena { games_executed: Cell::new(0) };
    let a = deck("A-001");
    let b = deck("B-001");

    let first = cached_simulate(&mut store, &arena, "test-v1", &a, &b, 10, 100);
    assert_eq!(first.games, 10);
    assert_eq!(arena.games_executed.get(), 10);

    let second = cached_simulate(&mut store, &arena, "test-v1", &a, &b, 25, 100);
    assert_eq!(second.games, 25);
    assert_eq!(arena.games_executed.get(), 25);

    let third = cached_simulate(&mut store, &arena, "test-v1", &a, &b, 5, 100);
    assert_eq!(third.games, 25);
    assert_eq!(arena.games_executed.get(), 25);
}

#[test]
fn cache_plan_asks_for_the_missing_games_from_the_next_seed() {
    assert_eq!(
        plan_cached_simulation(None, 10, 100),
        CacheStep::SimulateSuffix { cached: MatchupResult::default(), missing: 10, suffix_seed: 100 }
    );
    let row = MatchupResult { games: 10, wins_a: 4, wins_b: 6, draws: 0 };
    assert_eq!(
        plan_cached_simulation(Some(row), 25, u64::MAX),
        CacheStep::SimulateSuffix { cached: row, missing: 15, suffix_seed: 9 }
    );
    assert_eq!(plan_cached_simulation(Some(row), 10, 0), CacheStep::UseCached(row));
}

#[test]
fn cache_with_mock_arena_answers_the_whole_stream() {
    let arena = DeterministicMockArena;
    let a = deck("A-001");
    let b = deck("B-001");
    let row = arena.simulate(&a, &b, 10, 77);
    match plan_cached_simulation(Some(row), 30, 77) {
        CacheStep::SimulateSuffix { cached, missing, suffix_seed } => {
            let merged = cached.merged(&arena.simulate(&a, &b, missing, suffix_seed));
            assert_eq!(merged, arena.simulate(&a, &b, 30, 77));
        }
        CacheStep::UseCached(_) => panic!("ten games cannot answer thirty"),
    }
}

#[test]
fn merging_checks_for_overflow() {
    let a = MatchupResult { games: u64::MAX - 1, wins_a: 1, wins_b: 0, draws: 0 };
    let b = MatchupResult { games: 1, wins_a: 1, wins_b: 0, draws: 0 };
    let c = MatchupResult { games: 2, wins_a: 1, wins_b: 1, draws: 0 };
    assert!(a.can_merge_with(&b));
    assert!(!a.can_merge_with(&c));
    assert_eq!(a.merged(&b).games, u64::MAX);
}
