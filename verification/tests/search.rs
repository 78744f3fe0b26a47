use pocketlab::domain::{Card, CardId, CardRegistry, CardType, Deck};
use pocketlab::search::{dedupe, is_searchable, mutate_one_slot, next_generation, XorShift64};

fn registry() -> CardRegistry {
    let mut r = CardRegistry::new();
    for i in 1..=12 {
        r.insert(Card {
            id: CardId(format!("A-{:03}", i)),
            name: format!("Card{}", i),
            card_type: if i == 1 { CardType::Pokemon { basic: true } } else { CardType::Trainer },
            evolves_from: None,
            required_energy_types: if i == 1 { vec!["Grass".into()] } else { Vec::new() },
            legal: true,
            mechanics_implemented: true,
        });
    }
    r
}

fn legal_deck() -> Deck {
    let cards = (1..=10).map(|i| (CardId(format!("A-{:03}", i)), 2u8)).collect();
    Deck::new(cards, vec!["Grass".into()])
}

#[test]
fn xorshift_matches_the_reference_steps() {
    let mut rng = XorShift64::new(0);
    let first = rng.next();
    let mut x: u64 = 1;
    x ^= x << 13;
    x ^= x >> 7;
    x ^= x << 17;
    assert_eq!(first, x);
    let mut rng = XorShift64::new(7);
    let i = rng.index(5);
    assert!(i < 5);
}

#[test]
fn mutation_keeps_decks_legal_and_moves_one_copy() {
    let r = registry();
    let deck = legal_deck();
    let ids: Vec<CardId> = r.iter().iter().map(|c| c.id.clone()).collect();
    let mut rng = XorShift64::new(12345);
    let mut children = 0;
    for _ in 0..50 {
        if let Some(child) = mutate_one_slot(&deck, &ids, &r, &mut rng) {
            children += 1;
            assert_eq!(child.validate(&r), Ok(()));
            assert_eq!(child.total_cards(), 20);
            let mut changed = 0;
            for id in &ids {
                let before = deck.count_of(id).unwrap_or(0) as i32;
                let after = child.count_of(id).unwrap_or(0) as i32;
                changed += (before - after).abs();
            }
            assert_eq!(changed, 2);
            assert_eq!(child.energy_types(), &vec!["Grass".to_string()]);
        }
    }
    assert!(children > 0);
}

#[test]
fn mutation_of_an_empty_deck_or_without_candidates_is_none() {
    let r = registry();
    let mut rng = XorShift64::new(1);
    let empty = Deck::new(Vec::new(), Vec::new());
    assert!(mutate_one_slot(&empty, &vec![CardId("A-001".into())], &r, &mut rng).is_none());
    assert!(mutate_one_slot(&legal_deck(), &Vec::new(), &r, &mut rng).is_none());
}

#[test]
fn dedupe_keeps_first_deck_of_each_key_in_key_order() {
    let a = Deck::new(vec![(CardId("B".into()), 1)], vec!["x".into()]);
    let b = Deck::new(vec![(CardId("A".into()), 1)], vec!["y".into()]);
    let c = Deck::new(vec![(CardId("B".into()), 1)], vec!["x".into()]);
    let out = dedupe(vec![a, b, c]);
    let keys: Vec<String> = out.iter().map(|d| d.canonical_key()).collect();
    assert_eq!(keys, vec!["cards=A:1;energy=y".to_string(), "cards=B:1;energy=x".to_string()]);
}

#[test]
fn next_generation_keeps_elites_and_adds_legal_children() {
    let r = registry();
    let ids: Vec<CardId> = r.iter().iter().map(|c| c.id.clone()).collect();
    let mut rng = XorShift64::new(99);
    let elite_key = legal_deck().canonical_key();
    let next = next_generation(vec![legal_deck(), legal_deck()], 1, 4, &ids, &r, &mut rng);
    assert!(next.iter().any(|d| d.canonical_key() == elite_key));
    for d in &next {
        assert_eq!(d.validate(&r), Ok(()));
    }
    let keys: Vec<String> = next.iter().map(|d| d.canonical_key()).collect();
    let mut sorted = keys.clone();
    sorted.sort();
    sorted.dedup();
    assert_eq!(keys, sorted);
}

#[test]
fn searchable_decks_have_no_empty_entries_and_at_most_255_cards() {
    assert!(is_searchable(&legal_deck()));
    let empty_entry = Deck::new(vec![(CardId("A-001".into()), 0)], vec![]);
    assert!(!is_searchable(&empty_entry));
    let too_many = Deck::new(
        vec![(CardId("A-001".into()), 200), (CardId("A-002".into()), 56)],
        vec![],
    );
    assert!(!is_searchable(&too_many));
    let at_limit = Deck::new(
        vec![(CardId("A-001".into()), 200), (CardId("A-002".into()), 55)],
        vec![],
    );
    assert!(is_searchable(&at_limit));
}
