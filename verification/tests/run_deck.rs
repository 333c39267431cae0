use cyber_heist::run_deck::RunDeck;
use cyber_heist::starter_deck::StarterDeckEntry;

fn entry(id: &str, count: u8) -> StarterDeckEntry {
    StarterDeckEntry { id: id.to_string(), count }
}

#[test]
fn a_starter_list_expands_into_one_entry_per_physical_card() {
    let deck = RunDeck::from_starter_entries(&[entry("strike", 3), entry("vpn", 1)]);
    assert_eq!(deck.len(), 4);
    assert_eq!(deck.count_of("strike"), 3);
    assert_eq!(deck.count_of("vpn"), 1);
}

#[test]
fn an_entry_with_no_copies_contributes_nothing() {
    let deck = RunDeck::from_starter_entries(&[entry("strike", 0), entry("vpn", 2)]);
    assert_eq!(deck.len(), 2);
    assert_eq!(deck.count_of("strike"), 0);
}

#[test]
fn a_reward_card_is_added_to_what_the_run_already_owns() {
    let mut deck = RunDeck::from_starter_entries(&[entry("strike", 2)]);
    deck.add("wannacry");
    assert_eq!(deck.len(), 3);
    assert_eq!(deck.count_of("wannacry"), 1);
    assert_eq!(deck.count_of("strike"), 2, "existing cards are untouched");
}

#[test]
fn the_same_card_can_be_picked_more_than_once() {
    let mut deck = RunDeck::default();
    deck.add("wannacry");
    deck.add("wannacry");
    assert_eq!(deck.count_of("wannacry"), 2);
    assert_eq!(deck.card_ids(), ["wannacry", "wannacry"]);
}

#[test]
fn a_new_run_deck_is_empty() {
    let deck = RunDeck::default();
    assert!(deck.is_empty());
    assert_eq!(deck.len(), 0);
}

#[test]
fn starter_entries_keep_their_list_order() {
    let deck = RunDeck::from_starter_entries(&[entry("strike", 2), entry("vpn", 1), entry("strike", 1)]);
    assert_eq!(deck.card_ids(), ["strike", "strike", "vpn", "strike"]);
    assert_eq!(deck.count_of("strike"), 3);
    assert_eq!(deck.count_of("shield"), 0);
}
