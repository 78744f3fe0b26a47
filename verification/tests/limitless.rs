use pocketlab::deck_text::parse_pocket_deck_text;
use pocketlab::domain::{Card, CardId, CardRegistry, CardType};
use pocketlab::limitless::{
    decklist_fits, find_tournament_index, gather_standings, standing_within_limits,
    LimitlessDeckArchetype, LimitlessDeckCard, LimitlessDeckList, LimitlessStanding,
    LimitlessTournament,
};

fn registry() -> CardRegistry {
    let mut registry = CardRegistry::default();
    registry.insert(Card {
        id: CardId("B4-010".into()),
        name: "Combee".into(),
        card_type: CardType::Pokemon { basic: true },
        evolves_from: None,
        required_energy_types: vec!["Grass".into()],
        legal: true,
        mechanics_implemented: true,
    });
    registry
}

fn card(count: u8, set: &str, number: &str, name: &str) -> LimitlessDeckCard {
    LimitlessDeckCard { count, set: set.into(), number: number.into(), name: name.into() }
}

fn text(v: &serde_json::Value, key: &str) -> String {
    v[key].as_str().unwrap().to_string()
}

fn texts_of(v: &serde_json::Value) -> Vec<String> {
    v.as_array().map(|a| a.iter().map(|x| x.as_str().unwrap().to_string()).collect()).unwrap_or_default()
}

fn cards_of(v: &serde_json::Value) -> Vec<LimitlessDeckCard> {
    v.as_array()
        .map(|a| {
            a.iter()
                .map(|c| LimitlessDeckCard {
                    count: c["count"].as_u64().unwrap() as u8,
                    set: text(c, "set"),
                    number: text(c, "number"),
                    name: text(c, "name"),
                })
                .collect()
        })
        .unwrap_or_default()
}

fn standing_of(v: &serde_json::Value) -> LimitlessStanding {
    LimitlessStanding {
        player: text(v, "player"),
        placing: v["placing"].as_u64().unwrap() as u32,
        deck: v.get("deck").filter(|d| !d.is_null()).map(|d| LimitlessDeckArchetype {
            id: text(d, "id"),
            name: text(d, "name"),
            icons: texts_of(&d["icons"]),
        }),
        decklist: v.get("decklist").filter(|d| !d.is_null()).map(|d| LimitlessDeckList {
            pokemon: cards_of(&d["pokemon"]),
            trainer: cards_of(&d["trainer"]),
            energy: texts_of(&d["energy"]),
        }),
    }
}

#[test]
fn deserializes_real_limitless_decklist_shape() {
    let json = r#"
    {
      "player":"m8leo",
      "placing":1,
      "deck":{"id":"vespiquen-ex-b4-shuckle-ex-a4","name":"Vespiquen ex Shuckle ex","icons":["vespiquen","shuckle"]},
      "decklist":{
        "pokemon":[{"count":2,"set":"B4","number":"10","name":"Combee"}],
        "trainer":[],
        "energy":["Grass"]
      }
    }"#;
    let value: serde_json::Value = serde_json::from_str(json).unwrap();
    let standing = standing_of(&value);
    let deck = standing.decklist.unwrap().to_deck(&registry());
    assert_eq!(deck.count_of(&CardId("B4-010".into())), Some(2));
    assert_eq!(deck.energy_types(), &vec!["Grass".to_string()]);
}

#[test]
fn parsing_a_decklist_text_gives_the_deck_of_the_decklist() {
    let list = LimitlessDeckList {
        pokemon: vec![card(2, "B4", "10", "Combee"), card(1, "A1", "94", "Pikachu ex")],
        trainer: vec![card(2, "P-A", "5", "Poké Ball"), card(1, "B4", "010", "Combee")],
        energy: vec!["grass".into(), "Lightning".into()],
    };
    let text = "Energy: grass, Lightning\n2 Combee B4 10\n1 Pikachu ex A1 94\n2 Poké Ball P-A 5\n1 Combee B4 010";
    let parsed = parse_pocket_deck_text(text, &registry()).unwrap();
    let built = list.to_deck(&registry());
    assert_eq!(parsed.card_entries(), built.card_entries());
    assert_eq!(parsed.energy_types(), built.energy_types());
    let no_energy = LimitlessDeckList { energy: vec![], ..list };
    let text = "2 Combee B4 10\n1 Pikachu ex A1 94\n2 Poké Ball P-A 5\n1 Combee B4 010";
    let parsed = parse_pocket_deck_text(text, &registry()).unwrap();
    let built = no_energy.to_deck(&registry());
    assert_eq!(parsed.card_entries(), built.card_entries());
    assert_eq!(parsed.energy_types(), built.energy_types());
    assert_eq!(built.energy_types(), &vec!["Grass".to_string()]);
}

#[test]
fn to_deck_adds_repeated_cards_and_infers_energy() {
    let list = LimitlessDeckList {
        pokemon: vec![card(1, "B4", "10", "Combee"), card(1, "B4", "010", "Combee")],
        trainer: vec![card(2, "P-A", "5", "Poké Ball")],
        energy: vec![],
    };
    let deck = list.to_deck(&registry());
    assert_eq!(deck.count_of(&CardId("B4-010".into())), Some(2));
    assert_eq!(deck.count_of(&CardId("P-A-005".into())), Some(2));
    assert_eq!(deck.total_cards(), 4);
    assert_eq!(deck.energy_types(), &vec!["Grass".to_string()]);
}

fn full_registry() -> CardRegistry {
    let mut r = registry();
    for i in 1..=10 {
        r.insert(Card {
            id: CardId(format!("T-{:03}", i)),
            name: format!("Trainer{}", i),
            card_type: CardType::Trainer,
            evolves_from: None,
            required_energy_types: Vec::new(),
            legal: true,
            mechanics_implemented: i != 10,
        });
    }
    r
}

fn standing(name: Option<&str>, cards: Vec<LimitlessDeckCard>) -> LimitlessStanding {
    LimitlessStanding {
        player: "p".into(),
        placing: 1,
        deck: name.map(|n| LimitlessDeckArchetype { id: n.into(), name: n.into(), icons: vec![] }),
        decklist: Some(LimitlessDeckList { pokemon: cards, trainer: vec![], energy: vec![] }),
    }
}

fn legal_cards(last: u32) -> Vec<LimitlessDeckCard> {
    let mut cards = vec![card(2, "B4", "10", "Combee")];
    for i in 1..=8 {
        cards.push(card(2, "T", &format!("{}", i), "t"));
    }
    cards.push(card(2, "T", &format!("{}", last), "t"));
    cards
}

#[test]
fn gathers_standings_into_weighted_unique_decks() {
    let standings = vec![
        standing(Some("Bees"), legal_cards(9)),
        standing(None, legal_cards(9)),
        standing(None, legal_cards(10)),
        standing(Some("Short"), vec![card(2, "B4", "10", "Combee")]),
        LimitlessStanding { player: "q".into(), placing: 5, deck: None, decklist: None },
    ];
    let g = gather_standings(&standings, &full_registry());
    assert_eq!(g.stats.standings, 5);
    assert_eq!(g.stats.with_decklist, 4);
    assert_eq!(g.stats.accepted_entries, 2);
    assert_eq!(g.stats.unique_decks, 1);
    assert_eq!(g.stats.skipped_unsupported, 1);
    assert_eq!(g.stats.skipped_invalid, 1);
    assert_eq!(g.decks.len(), 1);
    assert_eq!(g.decks[0].id, "limitless:0:Bees");
    assert_eq!(g.decks[0].copies, 2);
}

#[test]
fn finds_tournaments_ignoring_case() {
    let ts = vec![
        LimitlessTournament { id: "1".into(), name: "Weekly Cup".into() },
        LimitlessTournament { id: "2".into(), name: "POCKET Championship".into() },
        LimitlessTournament { id: "3".into(), name: "pocket open".into() },
    ];
    assert_eq!(find_tournament_index(&ts, "Pocket"), Some(1));
    assert_eq!(find_tournament_index(&ts, "cup"), Some(0));
    assert_eq!(find_tournament_index(&ts, "regional"), None);
}

#[test]
fn decklists_over_255_cards_do_not_fit() {
    let small = LimitlessDeckList {
        pokemon: vec![card(200, "A", "1", "a")],
        trainer: vec![card(55, "B", "1", "b")],
        energy: vec![],
    };
    assert!(decklist_fits(&small));
    let big = LimitlessDeckList {
        pokemon: vec![card(200, "A", "1", "a")],
        trainer: vec![card(56, "B", "1", "b")],
        energy: vec![],
    };
    assert!(!decklist_fits(&big));
    assert!(standing_within_limits(&standing(None, legal_cards(9))));
    let mut no_list = standing(None, vec![]);
    no_list.decklist = None;
    assert!(standing_within_limits(&no_list));
    assert!(!standing_within_limits(&standing(None, vec![card(255, "A", "1", "a"), card(1, "A", "001", "a")])));
}

#[test]
fn gathers_two_identical_lists_under_the_first_label() {
    let mut reg = CardRegistry::new();
    for i in 1..=10 {
        reg.insert(Card {
            id: CardId(format!("C-{:03}", i)),
            name: format!("N{}", i),
            card_type: if i == 1 { CardType::Pokemon { basic: true } } else { CardType::Trainer },
            evolves_from: None,
            required_energy_types: Vec::new(),
            legal: true,
            mechanics_implemented: true,
        });
    }
    let list = LimitlessDeckList {
        pokemon: vec![],
        trainer: (1..=10).map(|i| card(2, "C", &i.to_string(), "x")).collect(),
        energy: vec!["Fire".into()],
    };
    let with = |label: Option<&str>, list: Option<LimitlessDeckList>| LimitlessStanding {
        player: "p".into(),
        placing: 1,
        deck: label.map(|n| LimitlessDeckArchetype { id: n.into(), name: n.into(), icons: vec![] }),
        decklist: list,
    };
    let standings = vec![
        with(Some("Arch"), Some(list.clone())),
        with(Some("Other"), Some(list.clone())),
        with(None, None),
    ];
    let g = gather_standings(&standings, &reg);
    assert_eq!(g.decks.len(), 1);
    assert_eq!(g.decks[0].id, "limitless:0:Arch");
    assert_eq!(g.decks[0].copies, 2);
    assert_eq!(g.decks[0].deck.canonical_key(), list.to_deck(&reg).canonical_key());
    assert_eq!(g.stats.standings, 3);
    assert_eq!(g.stats.with_decklist, 2);
    assert_eq!(g.stats.accepted_entries, 2);
    assert_eq!(g.stats.unique_decks, 1);
    assert_eq!(g.stats.skipped_invalid, 0);
    assert_eq!(g.stats.skipped_unsupported, 0);
}
