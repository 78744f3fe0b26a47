use pocketlab::deck_text::{
    deck_text_counts_fit, normalize_card_number, normalize_energy, parse_pocket_deck_text,
    DeckTextError,
};
use pocketlab::domain::{Card, CardId, CardRegistry, CardType};

fn registry() -> CardRegistry {
    let mut registry = CardRegistry::default();
    registry.insert(Card {
        id: CardId("A1-094".into()),
        name: "Pikachu".into(),
        card_type: CardType::Pokemon { basic: true },
        evolves_from: None,
        required_energy_types: vec!["Lightning".into()],
        legal: true,
        mechanics_implemented: true,
    });
    registry.insert(Card {
        id: CardId("P-A-005".into()),
        name: "Poké Ball".into(),
        card_type: CardType::Trainer,
        evolves_from: None,
        required_energy_types: Vec::new(),
        legal: true,
        mechanics_implemented: true,
    });
    registry
}

#[test]
fn parses_limitless_names_and_infers_energy() {
    let deck = parse_pocket_deck_text("2 Pikachu A1 94\n2 Poké Ball P-A 5", &registry()).unwrap();
    assert_eq!(deck.count_of(&CardId("A1-094".into())), Some(2));
    assert_eq!(deck.count_of(&CardId("P-A-005".into())), Some(2));
    assert_eq!(deck.energy_types(), &vec!["Lightning".to_string()]);
}

#[test]
fn explicit_energy_wins_over_inference() {
    let deck =
        parse_pocket_deck_text("Energy: Fire, Water\n2 Pikachu A1 94", &registry()).unwrap();
    assert_eq!(deck.energy_types(), &vec!["Fire".to_string(), "Water".to_string()]);
}

#[test]
fn headers_blank_lines_and_repeated_cards() {
    let text = "Pokémon: 4\n  2 Pikachu ex A1 96  \n\nTrainer: 2\n1 A1 096\r\n2 Poké Ball P-A 5\n";
    let deck = parse_pocket_deck_text(text, &registry()).unwrap();
    assert_eq!(deck.count_of(&CardId("A1-096".into())), Some(3));
    assert_eq!(deck.count_of(&CardId("P-A-005".into())), Some(2));
    assert_eq!(deck.total_cards(), 5);
    assert_eq!(deck.energy_types(), &vec!["Water".to_string()]);
}

#[test]
fn energy_names_are_normalized() {
    let deck = parse_pocket_deck_text("Energy: electric, DARK,, metal\n2 A1 94", &registry())
        .unwrap();
    assert_eq!(
        deck.energy_types(),
        &vec!["Darkness".to_string(), "Lightning".to_string(), "Metal".to_string()]
    );
}

#[test]
fn errors_name_the_offending_text() {
    assert_eq!(
        parse_pocket_deck_text("2 Pikachu", &registry()).unwrap_err(),
        DeckTextError::InvalidLine("2 Pikachu".into())
    );
    assert_eq!(
        parse_pocket_deck_text("two Pikachu A1 94", &registry()).unwrap_err(),
        DeckTextError::InvalidCount("two".into())
    );
    assert_eq!(
        parse_pocket_deck_text("256 Pikachu A1 94", &registry()).unwrap_err(),
        DeckTextError::InvalidCount("256".into())
    );
    assert_eq!(
        parse_pocket_deck_text("Energy: , ", &registry()).unwrap_err(),
        DeckTextError::EmptyEnergy
    );
}

#[test]
fn counts_that_would_overflow_are_detected() {
    assert!(deck_text_counts_fit("200 A1 94\n55 A1 94"));
    assert!(!deck_text_counts_fit("200 A1 94\n56 A1 94"));
    assert!(deck_text_counts_fit("200 A1 94\nbad\n56 A1 94"));
}

#[test]
fn card_numbers_and_energy_are_normalized() {
    assert_eq!(normalize_card_number("5"), "005");
    assert_eq!(normalize_card_number("96"), "096");
    assert_eq!(normalize_card_number("1234"), "1234");
    assert_eq!(normalize_card_number("5a"), "5a");
    assert_eq!(normalize_energy("Electric"), "Lightning");
    assert_eq!(normalize_energy("darkness"), "Darkness");
    assert_eq!(normalize_energy("Colorless"), "colorless");
    assert_eq!(normalize_energy("+1"), "+1");
}
