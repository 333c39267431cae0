use cyber_heist::card_data::{CardData, CardType, Rarity};
use cyber_heist::deck::Deck;
use rand::rngs::StdRng;
use rand::SeedableRng;
use std::collections::HashSet;

fn dummy_card(id: &str) -> CardData {
    CardData {
        id: id.to_string(),
        name: id.to_string(),
        description: "test card".to_string(),
        cost: 1,
        noise_generated: 0,
        card_type: CardType::Attack,
        rarity: Rarity::Common,
        keywords: Vec::new(),
        weak_side: None,
    }
}

fn dummy_cards(ids: &[&str]) -> Vec<CardData> {
    ids.iter().map(|id| dummy_card(id)).collect()
}

#[test]
fn draw_hand_deals_requested_number_of_cards() {
    let mut rng = StdRng::seed_from_u64(1);
    let mut deck = Deck::new(dummy_cards(&["a", "b", "c", "d", "e"]), &mut rng);
    let hand = deck.draw_hand(3, &mut rng);
    assert_eq!(hand.len(), 3);
    assert_eq!(deck.draw_pile_len(), 2);
}

#[test]
fn draw_hand_draws_different_orders_across_shuffles() {
    let ids: Vec<String> = (0..20).map(|i| format!("card_{i}")).collect();
    let id_refs: Vec<&str> = ids.iter().map(String::as_str).collect();
    let mut rng_a = StdRng::seed_from_u64(1);
    let mut deck_a = Deck::new(dummy_cards(&id_refs), &mut rng_a);
    let hand_a: Vec<String> = deck_a.draw_hand(20, &mut rng_a).into_iter().map(|c| c.id).collect();
    let mut rng_b = StdRng::seed_from_u64(2);
    let mut deck_b = Deck::new(dummy_cards(&id_refs), &mut rng_b);
    let hand_b: Vec<String> = deck_b.draw_hand(20, &mut rng_b).into_iter().map(|c| c.id).collect();
    assert_ne!(hand_a, hand_b, "different seeds should shuffle into different orders");
}

#[test]
fn draw_hand_reshuffles_discard_pile_when_draw_pile_runs_out() {
    let mut rng = StdRng::seed_from_u64(42);
    let mut deck = Deck::new(dummy_cards(&["a", "b"]), &mut rng);
    deck.discard(dummy_cards(&["c", "d", "e"]));
    let hand = deck.draw_hand(5, &mut rng);
    assert_eq!(hand.len(), 5);
    assert_eq!(deck.draw_pile_len(), 0);
    assert_eq!(deck.discard_pile_len(), 0);
    let mut ids: Vec<&str> = hand.iter().map(|c| c.id.as_str()).collect();
    ids.sort();
    assert_eq!(ids, vec!["a", "b", "c", "d", "e"]);
}

#[test]
fn draw_hand_of_seven_with_three_in_draw_pile_draws_those_three_then_tops_up_from_discard() {
    let mut rng = StdRng::seed_from_u64(99);
    let mut deck = Deck::new(dummy_cards(&["a", "b", "c"]), &mut rng);
    deck.discard(dummy_cards(&["d", "e", "f", "g", "h"]));
    let hand = deck.draw_hand(7, &mut rng);
    assert_eq!(hand.len(), 7);
    assert_eq!(deck.draw_pile_len(), 1, "reshuffled discard had 5 cards, only 4 of which were needed");
    assert_eq!(deck.discard_pile_len(), 0);
    let ids: HashSet<&str> = hand.iter().map(|c| c.id.as_str()).collect();
    assert!(["a", "b", "c"].iter().all(|id| ids.contains(id)));
    let first_three: HashSet<&str> = hand[..3].iter().map(|c| c.id.as_str()).collect();
    assert_eq!(first_three, ["a", "b", "c"].into_iter().collect(), "the draw pile is dealt before the discard");
    let topped_up = ids.iter().filter(|id| ["d", "e", "f", "g", "h"].contains(id)).count();
    assert_eq!(topped_up, 4);
}

#[test]
fn draw_hand_comes_back_short_when_both_piles_are_exhausted() {
    let mut rng = StdRng::seed_from_u64(7);
    let mut deck = Deck::new(dummy_cards(&["a"]), &mut rng);
    let hand = deck.draw_hand(5, &mut rng);
    assert_eq!(hand.len(), 1);
    assert_eq!(deck.draw_pile_len(), 0);
    assert_eq!(deck.discard_pile_len(), 0);
}

#[test]
fn a_hand_comes_off_the_top_of_the_draw_pile() {
    let mut rng = StdRng::seed_from_u64(3);
    let mut deck = Deck::new(Vec::new(), &mut rng);
    deck.discard(dummy_cards(&["x"]));
    let first = deck.draw_hand(1, &mut rng);
    assert_eq!(first[0].id, "x");
    deck.discard(dummy_cards(&["p", "q"]));
    assert_eq!(deck.draw_pile_len(), 0);
    assert_eq!(deck.discard_pile_len(), 2);
    let none = deck.draw_hand(0, &mut rng);
    assert!(none.is_empty());
    assert_eq!(deck.discard_pile_len(), 2, "an empty hand reshuffles nothing");
}
