use cyber_heist::card_data::{CardData, CardType, Rarity};
use cyber_heist::combat::{begin_next_turn, deal_hand, drain_energy, end_player_turn, security_turn};
use cyber_heist::deck::Deck;
use cyber_heist::noise_meter::NoiseLevel;
use cyber_heist::sentry::Sentry;
use rand::rngs::StdRng;
use rand::SeedableRng;

fn plain_card(id: &str) -> CardData {
    CardData {
        id: id.to_string(),
        name: id.to_string(),
        description: "test card".to_string(),
        cost: 1,
        noise_generated: 0,
        card_type: CardType::Attack,
        rarity: Rarity::Common,
        keywords: Vec::new(),
        weak_side: None,
    }
}

fn deck_of(count: usize, rng: &mut StdRng) -> Deck {
    Deck::new((0..count).map(|i| plain_card(&format!("card_{i}"))).collect(), rng)
}

#[test]
fn draining_energy_stops_at_zero_and_ignores_negative_amounts() {
    let mut energy = 3;
    assert_eq!(drain_energy(&mut energy, 2), 2);
    assert_eq!(energy, 1);
    assert_eq!(drain_energy(&mut energy, 5), 1);
    assert_eq!(energy, 0);
    let mut energy = 4;
    assert_eq!(drain_energy(&mut energy, -3), 0);
    assert_eq!(energy, 4);
    let mut energy = -2;
    assert_eq!(drain_energy(&mut energy, 1), -2);
    assert_eq!(energy, 0);
}

#[test]
fn dealing_a_hand_discards_the_old_one_and_refills_energy() {
    let mut rng = StdRng::seed_from_u64(5);
    let mut deck = deck_of(10, &mut rng);
    let mut hand = deck.draw_hand(2, &mut rng);
    let mut energy = 0;
    deal_hand(&mut hand, &mut deck, &mut energy, 3, 5, &mut rng);
    assert_eq!(energy, 3);
    assert_eq!(hand.len(), 5);
    assert_eq!(deck.draw_pile_len(), 3);
    assert_eq!(deck.discard_pile_len(), 2);
}

#[test]
fn ending_a_turn_moves_the_whole_hand_to_the_discard_pile() {
    let mut rng = StdRng::seed_from_u64(6);
    let mut deck = deck_of(8, &mut rng);
    let mut hand = deck.draw_hand(4, &mut rng);
    end_player_turn(&mut hand, &mut deck);
    assert!(hand.is_empty());
    assert_eq!(deck.draw_pile_len(), 4);
    assert_eq!(deck.discard_pile_len(), 4);
}

#[test]
fn the_security_turn_performs_the_queued_action_and_raises_noise() {
    let mut sentry = Sentry::warden_7();
    let mut noise = NoiseLevel::new(10);
    let turn = security_turn(&mut sentry, &mut noise, true);
    let action = turn.action.expect("a live encounter lets the sentry act");
    assert_eq!(action.name, "Packet Sniff");
    assert_eq!(turn.noise_added, 1);
    assert_eq!(noise.noise(), 1);
    assert!(!turn.run_failed);
    assert!(!turn.defeated);
    let second = security_turn(&mut sentry, &mut noise, true);
    assert_eq!(second.action.unwrap().name, "Trace Sweep");
    assert_eq!(noise.noise(), 3);
}

#[test]
fn corruption_ticks_before_the_sentry_acts() {
    let mut sentry = Sentry::warden_7();
    sentry.add_corruption(3);
    let mut noise = NoiseLevel::new(10);
    let turn = security_turn(&mut sentry, &mut noise, true);
    assert_eq!(turn.corruption_damage, 3);
    assert_eq!(turn.corruption, 2);
    assert_eq!(sentry.health(), 37);
    assert!(turn.action.is_some());
}

#[test]
fn a_finished_encounter_or_a_capped_meter_stops_the_sentry() {
    let mut sentry = Sentry::warden_7();
    let mut noise = NoiseLevel::new(10);
    let turn = security_turn(&mut sentry, &mut noise, false);
    assert!(turn.action.is_none());
    assert_eq!(noise.noise(), 0);

    let mut capped = NoiseLevel::new(2);
    capped.add(2);
    let turn = security_turn(&mut sentry, &mut capped, true);
    assert!(turn.action.is_none());
    assert_eq!(turn.noise_added, 0);
    assert!(turn.run_failed);
}

#[test]
fn a_sentry_brought_down_by_corruption_does_not_act() {
    let mut sentry = Sentry::warden_7();
    sentry.take_damage(39);
    sentry.add_corruption(2);
    let mut noise = NoiseLevel::new(10);
    let turn = security_turn(&mut sentry, &mut noise, true);
    assert!(turn.defeated);
    assert!(turn.action.is_none());
    assert_eq!(noise.noise(), 0);
}

#[test]
fn the_next_turn_clears_shield_and_boost_and_counts_on() {
    let mut rng = StdRng::seed_from_u64(9);
    let mut deck = deck_of(10, &mut rng);
    let mut hand = deck.draw_hand(5, &mut rng);
    let mut noise = NoiseLevel::new(10);
    noise.add_shield(4);
    let mut sentry = Sentry::warden_7();
    sentry.add_corruption_boost(2);
    let mut turn_number = 1;
    let mut energy = 0;
    begin_next_turn(&mut noise, &mut sentry, &mut turn_number, &mut energy, 3, &mut hand, &mut deck, 5, &mut rng);
    assert_eq!(noise.shield(), 0);
    assert_eq!(sentry.corruption_boost(), 0);
    assert_eq!(turn_number, 2);
    assert_eq!(energy, 3);
    assert_eq!(hand.len(), 5);
    assert_eq!(deck.discard_pile_len(), 5);
}

#[test]
fn a_sentry_without_corruption_takes_its_turn_whatever_its_health_range() {
    let mut sentry = Sentry::warden_7().with_health(-5);
    let mut noise = NoiseLevel::new(10);
    let turn = security_turn(&mut sentry, &mut noise, true);
    assert_eq!(turn.corruption_damage, 0);
    assert!(turn.defeated);
    assert!(turn.action.is_none());
}
