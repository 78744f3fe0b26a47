use pocketlab::domain::{Card, CardId, CardRegistry, CardType, Deck, DeckValidationError};

fn card(id: &str, name: &str, card_type: CardType) -> Card {
    Card {
        id: CardId(id.to_string()),
        name: name.to_string(),
        card_type,
        evolves_from: None,
        required_energy_types: Vec::new(),
        legal: true,
        mechanics_implemented: true,
    }
}

fn registry() -> CardRegistry {
    let mut r = CardRegistry::default();
    r.insert(card("A-001", "Alpha", CardType::Pokemon { basic: true }));
    r.insert(card("A-002", "Beta", CardType::Trainer));
    r
}

fn id(s: &str) -> CardId {
    CardId(s.to_string())
}

#[test]
fn canonical_key_is_order_independent() {
    let deck = Deck::new(
        vec![(id("A-002"), 18), (id("A-001"), 2)],
        vec!["fire".to_string()],
    );
    assert_eq!(deck.canonical_key(), "cards=A-001:2|A-002:18;energy=fire");
}

#[test]
fn validates_name_copy_limit_across_printings() {
    let mut r = registry();
    r.insert(card("B-001", "Alpha", CardType::Pokemon { basic: true }));
    let deck = Deck::new(
        vec![(id("A-001"), 2), (id("B-001"), 1), (id("A-002"), 17)],
        Vec::new(),
    );
    assert!(matches!(
        deck.validate(&r),
        Err(DeckValidationError::TooManyCopies { .. })
    ));
}

#[test]
fn too_many_copies_reports_the_name_and_total() {
    let mut r = registry();
    r.insert(card("B-001", "Alpha", CardType::Pokemon { basic: true }));
    let deck = Deck::new(
        vec![(id("A-001"), 2), (id("B-001"), 1), (id("A-002"), 17)],
        Vec::new(),
    );
    assert_eq!(
        deck.validate(&r),
        Err(DeckValidationError::TooManyCopies { name: "Alpha".to_string(), count: 3 })
    );
}

#[test]
fn too_many_copies_names_the_first_name_in_order() {
    let mut r = registry();
    r.insert(card("C-001", "Zeta", CardType::Pokemon { basic: true }));
    r.insert(card("C-002", "Gamma", CardType::Trainer));
    let deck = Deck::new(
        vec![(id("C-001"), 3), (id("C-002"), 3), (id("A-002"), 14)],
        Vec::new(),
    );
    assert_eq!(
        deck.validate(&r),
        Err(DeckValidationError::TooManyCopies { name: "Beta".to_string(), count: 14 })
    );
}

#[test]
fn a_legal_deck_validates() {
    let mut r = registry();
    for i in 3..=12 {
        r.insert(card(&format!("A-{:03}", i), &format!("Card{}", i), CardType::Trainer));
    }
    let mut cards = vec![(id("A-001"), 2)];
    for i in 3..=11 {
        cards.push((id(&format!("A-{:03}", i)), 2));
    }
    let deck = Deck::new(cards, vec!["Water".to_string()]);
    assert_eq!(deck.total_cards(), 20);
    assert_eq!(deck.validate(&r), Ok(()));
}

#[test]
fn wrong_size_is_reported_first() {
    let deck = Deck::new(vec![(id("Z-999"), 0), (id("A-001"), 2)], Vec::new());
    assert_eq!(deck.validate(&registry()), Err(DeckValidationError::WrongSize(2)));
}

#[test]
fn zero_count_unknown_illegal_and_unsupported_cards() {
    let mut r = registry();
    let mut illegal = card("A-003", "Gamma", CardType::Trainer);
    illegal.legal = false;
    r.insert(illegal);
    let mut unsupported = card("A-004", "Delta", CardType::Trainer);
    unsupported.mechanics_implemented = false;
    r.insert(unsupported);

    let zero = Deck::new(vec![(id("A-001"), 0), (id("A-002"), 20)], Vec::new());
    assert_eq!(zero.validate(&r), Err(DeckValidationError::ZeroCount(id("A-001"))));

    let unknown = Deck::new(vec![(id("A-001"), 2), (id("X-001"), 18)], Vec::new());
    assert_eq!(unknown.validate(&r), Err(DeckValidationError::UnknownCard(id("X-001"))));

    let not_legal = Deck::new(vec![(id("A-001"), 2), (id("A-003"), 18)], Vec::new());
    assert_eq!(not_legal.validate(&r), Err(DeckValidationError::IllegalCard(id("A-003"))));

    let not_simulatable = Deck::new(vec![(id("A-001"), 2), (id("A-004"), 18)], Vec::new());
    assert_eq!(
        not_simulatable.validate(&r),
        Err(DeckValidationError::UnsupportedCard(id("A-004")))
    );
}

#[test]
fn a_deck_without_basic_pokemon_is_refused() {
    let mut r = CardRegistry::new();
    for i in 1..=10 {
        r.insert(card(&format!("T-{:03}", i), &format!("Trainer{}", i), CardType::Trainer));
    }
    let cards = (1..=10).map(|i| (id(&format!("T-{:03}", i)), 2u8)).collect();
    let deck = Deck::new(cards, Vec::new());
    assert_eq!(deck.validate(&r), Err(DeckValidationError::NoBasicPokemon));
}

#[test]
fn later_pairs_replace_earlier_ones_and_types_count_once() {
    let deck = Deck::new(
        vec![(id("B-001"), 1), (id("A-001"), 4), (id("B-001"), 3)],
        vec!["Water".to_string(), "Fire".to_string(), "Water".to_string()],
    );
    assert_eq!(deck.count_of(&id("B-001")), Some(3));
    assert_eq!(deck.count_of(&id("A-001")), Some(4));
    assert_eq!(deck.count_of(&id("C-001")), None);
    assert_eq!(deck.total_cards(), 7);
    assert_eq!(deck.energy_types(), &vec!["Fire".to_string(), "Water".to_string()]);
    assert_eq!(deck.canonical_key(), "cards=A-001:4|B-001:3;energy=Fire,Water");
}

#[test]
fn canonical_key_of_permuted_inputs_is_the_same() {
    let a = Deck::new(
        vec![(id("P-A-005"), 1), (id("A1-094"), 2), (id("A3b-041"), 17)],
        vec!["Water".to_string(), "Lightning".to_string()],
    );
    let b = Deck::new(
        vec![(id("A3b-041"), 17), (id("P-A-005"), 1), (id("A1-094"), 2)],
        vec!["Lightning".to_string(), "Water".to_string()],
    );
    assert_eq!(a.canonical_key(), b.canonical_key());
    assert_eq!(a.canonical_key(), "cards=A1-094:2|A3b-041:17|P-A-005:1;energy=Lightning,Water");
}

#[test]
fn registry_get_returns_what_insert_stored() {
    let mut r = registry();
    assert_eq!(r.len(), 2);
    r.insert(card("A-001", "Alpha prime", CardType::Trainer));
    assert_eq!(r.len(), 2);
    assert_eq!(r.get(&id("A-001")).unwrap().name, "Alpha prime");
    assert_eq!(r.get(&id("A-002")).unwrap().name, "Beta");
    assert!(r.get(&id("A-003")).is_none());
    let ids: Vec<&str> = r.iter().iter().map(|c| c.id.0.as_str()).collect();
    assert_eq!(ids, vec!["A-001", "A-002"]);
}

#[test]
fn energy_inference_unions_requirements_or_falls_back_to_water() {
    let mut r = registry();
    let mut pikachu = card("A1-094", "Pikachu", CardType::Pokemon { basic: true });
    pikachu.required_energy_types = vec!["Lightning".to_string()];
    r.insert(pikachu);
    let mut starmie = card("A1-050", "Starmie", CardType::Pokemon { basic: false });
    starmie.required_energy_types = vec!["Water".to_string(), "Lightning".to_string()];
    r.insert(starmie);
    let entries = vec![(id("A1-094"), 2), (id("A1-050"), 1), (id("Z-000"), 1)];
    assert_eq!(
        r.infer_energy_types(&entries),
        vec!["Lightning".to_string(), "Water".to_string()]
    );
    let colorless = vec![(id("A-002"), 2)];
    assert!(r.infer_energy_types(&colorless).is_empty());
    assert_eq!(
        pocketlab::domain::inferred_energy(&r, &colorless),
        vec!["Water".to_string()]
    );
}

#[test]
fn different_contents_give_different_canonical_keys() {
    let base = Deck::new(vec![(id("A-001"), 2), (id("A-002"), 18)], vec!["Fire".to_string()]);
    let more = Deck::new(vec![(id("A-001"), 3), (id("A-002"), 17)], vec!["Fire".to_string()]);
    let other_card = Deck::new(vec![(id("A-001"), 2), (id("A-003"), 18)], vec!["Fire".to_string()]);
    let other_type = Deck::new(vec![(id("A-001"), 2), (id("A-002"), 18)], vec!["Water".to_string()]);
    assert_ne!(base.canonical_key(), more.canonical_key());
    assert_ne!(base.canonical_key(), other_card.canonical_key());
    assert_ne!(base.canonical_key(), other_type.canonical_key());
}

#[test]
fn separators_in_identifiers_or_empty_types_can_collide() {
    let split = Deck::new(vec![(id("A"), 1), (id("B"), 2)], Vec::new());
    let joined = Deck::new(vec![(id("A:1|B"), 2)], Vec::new());
    assert_eq!(split.canonical_key(), joined.canonical_key());
    let none = Deck::new(vec![(id("A-001"), 20)], Vec::new());
    let empty = Deck::new(vec![(id("A-001"), 20)], vec![String::new()]);
    assert_eq!(none.canonical_key(), empty.canonical_key());
    assert_ne!(none.energy_types().len(), empty.energy_types().len());
}

#[test]
fn total_fits_checks_the_card_count_bound() {
    let small = Deck::new(vec![(id("A-001"), 200), (id("A-002"), 55)], Vec::new());
    assert!(small.total_fits());
    assert_eq!(small.total_cards(), 255);
    let big = Deck::new(vec![(id("A-001"), 200), (id("A-002"), 56)], Vec::new());
    assert!(!big.total_fits());
}

#[test]
fn inserting_a_known_identifier_keeps_the_card_count() {
    let mut r = registry();
    assert_eq!(r.len(), 2);
    r.insert(card("A-001", "Alpha again", CardType::Trainer));
    assert_eq!(r.len(), 2);
    r.insert(card("A-003", "Gamma", CardType::Trainer));
    assert_eq!(r.len(), 3);
}
