use cyber_heist::card_data::{CardData, CardType, Rarity};
use cyber_heist::starter_deck::{build_starter_deck, StarterDeckEntry};
use std::collections::HashMap;

fn card(id: &str) -> CardData {
    CardData {
        id: id.to_string(),
        name: id.to_string(),
        description: "test card".to_string(),
        cost: 1,
        noise_generated: 0,
        card_type: CardType::Attack,
        rarity: Rarity::Common,
        keywords: Vec::new(),
        weak_side: None,
    }
}

fn test_database(ids: &[&str]) -> HashMap<String, CardData> {
    ids.iter().map(|id| (id.to_string(), card(id))).collect()
}

/// The sample starter list: three strikes and a shield.
fn sample() -> Vec<StarterDeckEntry> {
    vec![
        StarterDeckEntry { id: "strike".to_string(), count: 3 },
        StarterDeckEntry { id: "shield".to_string(), count: 1 },
    ]
}

#[test]
fn building_expands_each_entry_into_that_many_copies() {
    let database = test_database(&["strike", "shield"]);
    let entries = sample();
    let deck = build_starter_deck(&entries, |id| database.get(id)).expect("all ids exist");
    assert_eq!(deck.len(), 4, "3 strikes + 1 shield");
    let strikes = deck.iter().filter(|c| c.id == "strike").count();
    let shields = deck.iter().filter(|c| c.id == "shield").count();
    assert_eq!(strikes, 3);
    assert_eq!(shields, 1);
}

#[test]
fn an_unknown_card_id_is_reported_rather_than_skipped() {
    let database = test_database(&["strike"]);
    let entries = sample();
    let result = build_starter_deck(&entries, |id| database.get(id));
    assert_eq!(result.unwrap_err(), vec!["shield".to_string()]);
}

#[test]
fn a_zero_count_entry_contributes_nothing() {
    let database = test_database(&["strike"]);
    let entries = vec![StarterDeckEntry { id: "strike".to_string(), count: 0 }];
    let deck = build_starter_deck(&entries, |id| database.get(id)).expect("id exists");
    assert!(deck.is_empty());
}

#[test]
fn the_starter_deck_is_identical_every_time_it_is_built() {
    let database = test_database(&["strike", "shield"]);
    let entries = sample();
    let first = build_starter_deck(&entries, |id| database.get(id)).expect("all ids exist");
    let second = build_starter_deck(&entries, |id| database.get(id)).expect("all ids exist");
    let first_ids: Vec<&str> = first.iter().map(|c| c.id.as_str()).collect();
    let second_ids: Vec<&str> = second.iter().map(|c| c.id.as_str()).collect();
    assert_eq!(first_ids, second_ids);
}

#[test]
fn every_missing_id_is_reported_in_list_order() {
    let database = test_database(&["vpn"]);
    let entries = vec![
        StarterDeckEntry { id: "strike".to_string(), count: 2 },
        StarterDeckEntry { id: "vpn".to_string(), count: 1 },
        StarterDeckEntry { id: "shield".to_string(), count: 1 },
    ];
    let result = build_starter_deck(&entries, |id| database.get(id));
    assert_eq!(result.unwrap_err(), vec!["strike".to_string(), "shield".to_string()]);
}
