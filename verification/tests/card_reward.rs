use cyber_heist::card_reward::offer_from_pool;
use rand::rngs::StdRng;
use rand::SeedableRng;
use std::collections::HashSet;

fn pool(ids: &[&str]) -> Vec<String> {
    ids.iter().map(|id| id.to_string()).collect()
}

#[test]
fn an_offer_has_the_requested_number_of_cards() {
    let mut rng = StdRng::seed_from_u64(1);
    let pool = pool(&["a", "b", "c", "d", "e"]);
    let offer = offer_from_pool(&pool, 3, &mut rng);
    assert_eq!(offer.len(), 3);
}

#[test]
fn every_card_in_an_offer_comes_from_the_pool() {
    let mut rng = StdRng::seed_from_u64(2);
    let pool = pool(&["a", "b", "c", "d", "e"]);
    let offer = offer_from_pool(&pool, 3, &mut rng);
    for id in &offer {
        assert!(pool.contains(id), "{id} is not in the pool");
    }
}

#[test]
fn an_offer_never_repeats_the_same_card() {
    let mut rng = StdRng::seed_from_u64(3);
    let pool = pool(&["a", "a", "a", "a", "a", "b", "c"]);
    for _ in 0..50 {
        let offer = offer_from_pool(&pool, 3, &mut rng);
        let unique: HashSet<&String> = offer.iter().collect();
        assert_eq!(unique.len(), offer.len(), "offer repeated a card: {offer:?}");
    }
}

#[test]
fn a_pool_smaller_than_the_offer_yields_a_shorter_offer() {
    let mut rng = StdRng::seed_from_u64(4);
    let pool = pool(&["a", "b"]);
    let offer = offer_from_pool(&pool, 3, &mut rng);
    assert_eq!(offer.len(), 2, "two distinct cards cannot fill three slots");
}

#[test]
fn an_empty_pool_offers_nothing_rather_than_panicking() {
    let mut rng = StdRng::seed_from_u64(5);
    let offer = offer_from_pool(&[], 3, &mut rng);
    assert!(offer.is_empty());
}

#[test]
fn offers_vary_between_encounters() {
    let pool: Vec<String> = (0..30).map(|i| format!("card_{i}")).collect();
    let mut rng_a = StdRng::seed_from_u64(6);
    let mut rng_b = StdRng::seed_from_u64(7);
    let offer_a = offer_from_pool(&pool, 3, &mut rng_a);
    let offer_b = offer_from_pool(&pool, 3, &mut rng_b);
    assert_ne!(offer_a, offer_b, "a reward screen that always offers the same three cards is not a choice");
}

#[test]
fn a_pool_of_repeats_offers_each_distinct_card_once() {
    let mut rng = StdRng::seed_from_u64(8);
    let pool = pool(&["b", "a", "b", "c", "a"]);
    let mut offer = offer_from_pool(&pool, 10, &mut rng);
    offer.sort();
    assert_eq!(offer, vec!["a".to_string(), "b".to_string(), "c".to_string()]);
}

#[test]
fn the_order_of_the_pool_does_not_change_the_offer() {
    let forwards = pool(&["alpha", "bravo", "charlie", "delta", "echo", "foxtrot"]);
    let backwards = pool(&["foxtrot", "echo", "delta", "charlie", "bravo", "alpha"]);
    for seed in 0..10 {
        let offer_a = offer_from_pool(&forwards, 3, &mut StdRng::seed_from_u64(seed));
        let offer_b = offer_from_pool(&backwards, 3, &mut StdRng::seed_from_u64(seed));
        assert_eq!(offer_a, offer_b, "seed {seed}: the same cards in another order made another offer");
    }
}
