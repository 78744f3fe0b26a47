use pocketlab::deckgym_adapter::{
    deck_to_deckgym_text, game_seed, split_card_id, tally_outcomes, GameOutcome,
};
use pocketlab::deckgym_registry::{
    card_from_deckgym, normalize_deckgym_card_id, registry_from_deckgym, registry_stats,
    searchable_card_ids, DeckGymCardInfo,
};
use pocketlab::deck_text::parse_pocket_deck_text;
use pocketlab::domain::{CardId, CardRegistry, CardType, Deck};
use pocketlab::simulator::{splitmix64, MatchupResult};

#[test]
fn encodes_deckgym_text_without_card_names() {
    let deck = Deck::new(
        vec![(CardId("A3b-041".into()), 2), (CardId("P-A-005".into()), 1)],
        vec!["lightning".into(), "water".into()],
    );
    assert_eq!(
        deck_to_deckgym_text(&deck).unwrap(),
        "Energy: Lightning, Water\n2 A3b 041\n1 P-A 005"
    );
}

#[test]
fn deckgym_text_without_energy_and_with_bad_ids() {
    let deck = Deck::new(vec![(CardId("A1 001".into()), 20)], Vec::new());
    assert_eq!(deck_to_deckgym_text(&deck).unwrap(), "20 A1 001");
    let bad = Deck::new(vec![(CardId("A1001".into()), 20)], vec![" dragon ".into()]);
    assert_eq!(
        deck_to_deckgym_text(&bad).unwrap_err(),
        "card id 'A1001' must look like 'A3b-041' or 'A3b 041'"
    );
    let odd = Deck::new(vec![(CardId("A-1".into()), 20)], vec![" dragon ".into(), "Sky".into()]);
    assert_eq!(deck_to_deckgym_text(&odd).unwrap(), "Energy: Dragon, Sky\n20 A 1");
}

#[test]
fn splits_card_ids() {
    assert_eq!(
        split_card_id(&CardId("P-A-005".into())).unwrap(),
        ("P-A".to_string(), "005".to_string())
    );
    assert_eq!(
        split_card_id(&CardId(" A3b 041 ".into())).unwrap(),
        ("A3b".to_string(), "041".to_string())
    );
    assert!(split_card_id(&CardId("-041".into())).is_err());
    assert!(split_card_id(&CardId("A3b-".into())).is_err());
}

#[test]
fn splitmix_is_deterministic_and_changes_with_index() {
    assert_eq!(splitmix64(42), splitmix64(42));
    assert_ne!(splitmix64(42), splitmix64(43));
}

#[test]
fn splitmix_known_value_and_game_seeds() {
    assert_eq!(splitmix64(0), 0xe220a8397b1dcdaf);
    assert_eq!(game_seed(u64::MAX, 1), splitmix64(0));
    assert_eq!(game_seed(5, 2), splitmix64(7));
}

#[test]
fn tallies_outcomes() {
    let outcomes = vec![
        Some(GameOutcome::Win(0)),
        Some(GameOutcome::Win(1)),
        Some(GameOutcome::Win(0)),
        Some(GameOutcome::Tie),
        None,
        Some(GameOutcome::Win(2)),
    ];
    let r = tally_outcomes(&outcomes);
    assert_eq!((r.games, r.wins_a, r.wins_b, r.draws), (6, 2, 1, 3));
}

#[test]
fn normalizes_promo_and_regular_ids() {
    assert_eq!(normalize_deckgym_card_id("A3b 041"), "A3b-041");
    assert_eq!(normalize_deckgym_card_id("P-A 005"), "P-A-005");
}

#[test]
fn normalizes_other_ids_by_dashing_spaces() {
    assert_eq!(normalize_deckgym_card_id("  A1  "), "A1");
    assert_eq!(normalize_deckgym_card_id("A 1 2"), "A-1-2");
}

#[test]
fn registry_from_deckgym_cards_and_stats() {
    let infos = vec![
        DeckGymCardInfo {
            raw_id: "A1 001".into(),
            name: "Bulbasaur".into(),
            pokemon_stage: Some(0),
            implemented: true,
        },
        DeckGymCardInfo {
            raw_id: "A1 002".into(),
            name: "Ivysaur".into(),
            pokemon_stage: Some(1),
            implemented: false,
        },
        DeckGymCardInfo {
            raw_id: "P-A 005".into(),
            name: "Poké Ball".into(),
            pokemon_stage: None,
            implemented: true,
        },
    ];
    let card = card_from_deckgym(&infos[0]);
    assert_eq!(card.id, CardId("A1-001".into()));
    assert_eq!(card.card_type, CardType::Pokemon { basic: true });
    let registry = registry_from_deckgym(&infos);
    let bulbasaur = registry.get(&CardId("A1-001".into())).unwrap();
    assert_eq!(bulbasaur.name, "Bulbasaur");
    assert!(matches!(bulbasaur.card_type, CardType::Pokemon { basic: true }));
    let stats = registry_stats(&registry);
    assert_eq!(stats.total_cards, 3);
    assert_eq!(stats.supported_cards, 2);
    assert_eq!(stats.unsupported_cards, 1);
    assert_eq!(stats.total_cards, stats.supported_cards + stats.unsupported_cards);
    assert_eq!(
        searchable_card_ids(&registry),
        vec![CardId("A1-001".into()), CardId("P-A-005".into())]
    );
}

#[test]
fn deckgym_text_reads_back_as_the_same_deck() {
    let deck = Deck::new(
        vec![
            (CardId("A3b-041".into()), 2),
            (CardId("P-A-005".into()), 1),
            (CardId("A1-094".into()), 17),
        ],
        vec!["Water".into(), "Lightning".into()],
    );
    let text = deck_to_deckgym_text(&deck).unwrap();
    let back = parse_pocket_deck_text(&text, &CardRegistry::new()).unwrap();
    assert_eq!(back.card_entries(), deck.card_entries());
    assert_eq!(back.energy_types(), deck.energy_types());
    assert_eq!(back.canonical_key(), deck.canonical_key());
}

#[test]
fn unnormalized_numbers_and_other_types_do_not_read_back_unchanged() {
    let deck = Deck::new(vec![(CardId("A1-94".into()), 2)], vec!["Dragon".into()]);
    let text = deck_to_deckgym_text(&deck).unwrap();
    assert_eq!(text, "Energy: Dragon\n2 A1 94");
    let back = parse_pocket_deck_text(&text, &CardRegistry::new()).unwrap();
    assert_eq!(back.count_of(&CardId("A1-094".into())), Some(2));
    assert_eq!(back.count_of(&CardId("A1-94".into())), None);
    assert_eq!(back.energy_types(), &vec!["dragon".to_string()]);
}

#[test]
fn games_of_a_batch_get_distinct_seeds() {
    let seeds: Vec<u64> = (0..1000u32).map(|i| game_seed(u64::MAX - 500, i)).collect();
    let mut sorted = seeds.clone();
    sorted.sort();
    sorted.dedup();
    assert_eq!(sorted.len(), seeds.len());
}

#[test]
fn tallies_of_consecutive_batches_merge_into_the_tally_of_both() {
    let first = vec![Some(GameOutcome::Win(0)), Some(GameOutcome::Tie), None];
    let second = vec![Some(GameOutcome::Win(1)), Some(GameOutcome::Win(0)), Some(GameOutcome::Win(2))];
    let whole: Vec<Option<GameOutcome>> = first.iter().chain(second.iter()).cloned().collect();
    let merged: MatchupResult = tally_outcomes(&first).merged(&tally_outcomes(&second));
    assert_eq!(merged, tally_outcomes(&whole));
    assert_eq!(merged, MatchupResult { games: 6, wins_a: 2, wins_b: 1, draws: 3 });
}
