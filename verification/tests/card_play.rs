use cyber_heist::card_data::{CardData, CardType, Keyword, Rarity, WeakSide};
use cyber_heist::card_play::{play_can_land_check, play_card, PlayError, PlayedCard};
use cyber_heist::deck::Deck;
use cyber_heist::noise_meter::NoiseLevel;
use cyber_heist::sentry::Sentry;
use rand::rngs::StdRng;
use rand::SeedableRng;

/// Cards with the values the combat scenarios below rely on.
fn authored(id: &str) -> CardData {
    let (name, cost, noise, keywords, weak_side): (&str, u8, i8, Vec<Keyword>, Option<WeakSide>) = match id {
        "vpn" => ("VPN", 2, -10, vec![], None),
        "trojan" => ("Trojan", 1, 5, vec![Keyword::Penetrating(6)], None),
        "ransomware" => ("Ransomware", 3, 15, vec![Keyword::Damage(4), Keyword::Penetrating(6)], None),
        "strike" => ("Strike", 1, 0, vec![Keyword::Damage(6)], None),
        "wannacry" => ("WannaCry", 2, 10, vec![Keyword::Penetrating(30)], None),
        "shield" => ("Shield", 1, 0, vec![Keyword::Block(6)], None),
        "burner_phone" => ("Burner Phone", 1, -10, vec![Keyword::Block(8)], None),
        "background_check" => ("Background Check", 1, 0, vec![Keyword::Knowledge(1)], None),
        "social_engineering" => ("Social Engineering", 1, 5, vec![Keyword::Draw(1)], None),
        "nigerian_king" => (
            "Nigerian King",
            1,
            15,
            vec![Keyword::Damage(18)],
            Some(WeakSide {
                noise_threshold: 50,
                name: Some("Nigerian Prince".to_string()),
                description: "The prince is less convincing.".to_string(),
                keywords: vec![Keyword::Damage(8)],
            }),
        ),
        other => panic!("no card {other}"),
    };
    CardData {
        id: id.to_string(),
        name: name.to_string(),
        description: format!("{name} does its thing."),
        cost,
        noise_generated: noise,
        card_type: CardType::Attack,
        rarity: Rarity::Common,
        keywords,
        weak_side,
    }
}

struct Combat {
    hand: Vec<CardData>,
    deck: Deck,
    energy: i32,
    sentry: Sentry,
    noise: NoiseLevel,
}

impl Combat {
    fn with_card(id: &str, noise: i32) -> Self {
        let mut level = NoiseLevel::new(100);
        level.add(noise);
        Self {
            hand: vec![authored(id)],
            deck: Deck::new(Vec::new(), &mut StdRng::seed_from_u64(4)),
            energy: 3,
            sentry: Sentry::warden_7(),
            noise: level,
        }
    }

    fn play(&mut self, index: i32) -> Result<PlayedCard, PlayError> {
        play_card(&mut self.hand, &mut self.deck, &mut self.energy, &mut self.noise, &mut self.sentry, index)
    }
}

#[test]
fn vpn_recovers_before_detection_without_advancing_the_intent() {
    let mut combat = Combat::with_card("vpn", 99);
    let intent = combat.sentry.queued_action().cloned();
    let played = combat.play(0).unwrap();
    assert_eq!(played.name, "VPN");
    assert_eq!(played.noise_change, -10);
    assert_eq!(played.damage_dealt, 0);
    assert_eq!(played.shield_added, 0);
    assert_eq!(combat.noise.noise(), 89);
    assert_eq!(combat.sentry.queued_action(), intent.as_ref());
    assert_eq!(combat.energy, 1);
    assert!(combat.hand.is_empty());
    assert_eq!(combat.deck.discard_pile_len(), 1);
    assert!(!combat.noise.is_at_cap());
    let action = combat.sentry.perform_queued_action().unwrap();
    assert_eq!(action.name, "Packet Sniff");
    assert_eq!(combat.noise.add(action.noise), 1);
    assert_eq!(combat.noise.noise(), 90);
    assert!(!combat.noise.is_at_cap());
}

#[test]
fn recovery_clamps_at_zero_but_still_costs_energy_and_the_card() {
    for noise in [0, 1, 5] {
        let mut combat = Combat::with_card("vpn", noise);
        assert_eq!(combat.play(0).unwrap().noise_change, -noise);
        assert_eq!(combat.noise.noise(), 0);
        assert_eq!(combat.energy, 1);
        assert!(combat.hand.is_empty());
        assert_eq!(combat.deck.discard_pile_len(), 1);
        assert_eq!(combat.play(0), Err(PlayError::InvalidIndex));
        assert_eq!(combat.energy, 1);
        assert_eq!(combat.deck.discard_pile_len(), 1);
    }
}

#[test]
fn rejected_plays_leave_all_state_untouched() {
    for (index, energy, noise, error) in [
        (-1, 3, 9, PlayError::InvalidIndex),
        (1, 3, 9, PlayError::InvalidIndex),
        (i32::MAX, 3, 9, PlayError::InvalidIndex),
        (0, 1, 9, PlayError::NotEnoughEnergy),
        (0, 3, 100, PlayError::Detected),
    ] {
        let mut combat = Combat::with_card("vpn", noise);
        combat.energy = energy;
        let sentry_before = combat.sentry.clone();
        let noise_before = combat.noise;
        assert_eq!(combat.play(index), Err(error));
        assert_eq!(combat.hand.len(), 1);
        assert_eq!(combat.hand[0].id, "vpn");
        assert_eq!(combat.energy, energy);
        assert_eq!(combat.deck.discard_pile_len(), 0);
        assert_eq!(combat.deck.draw_pile_len(), 0);
        assert_eq!(combat.sentry, sentry_before);
        assert_eq!(combat.noise, noise_before);
    }
}

#[test]
fn signed_noise_is_applied_once_and_positive_noise_stops_at_the_cap() {
    for (id, before, after, delta) in
        [("trojan", 1, 6, 5), ("trojan", 99, 100, 1), ("ransomware", 0, 15, 15), ("strike", 4, 4, 0)]
    {
        let mut combat = Combat::with_card(id, before);
        let cost = i32::from(combat.hand[0].cost);
        assert_eq!(combat.play(0).unwrap().noise_change, delta);
        assert_eq!(combat.noise.noise(), after);
        assert_eq!(combat.noise.is_at_cap(), after == 100);
        assert_eq!(combat.energy, 3 - cost);
        assert_eq!(combat.deck.discard_pile_len(), 1);
    }
}

#[test]
fn unaffordable_loud_card_does_not_trigger_detection() {
    let mut combat = Combat::with_card("ransomware", 99);
    combat.energy = 2;
    assert_eq!(combat.play(0), Err(PlayError::NotEnoughEnergy));
    assert_eq!(combat.noise.noise(), 99);
    assert!(!combat.noise.is_at_cap());
    assert_eq!(combat.energy, 2);
    assert_eq!(combat.hand[0].id, "ransomware");
    assert_eq!(combat.deck.discard_pile_len(), 0);
}

#[test]
fn exact_energy_can_pay_for_recovery_and_the_card_remains_in_the_deck() {
    let mut combat = Combat::with_card("vpn", 99);
    combat.energy = 2;
    combat.play(0).unwrap();
    assert_eq!(combat.energy, 0);
    let redrawn = combat.deck.draw_hand(1, &mut StdRng::seed_from_u64(4));
    assert_eq!(redrawn[0].id, "vpn");
    assert_eq!(combat.deck.discard_pile_len(), 0);
}

#[test]
fn social_play_reports_the_side_selected_before_its_own_noise_lands() {
    for (before, name) in [(49, "Nigerian King"), (50, "Nigerian Prince")] {
        let mut combat = Combat::with_card("nigerian_king", before);
        let played = combat.play(0).unwrap();
        assert_eq!(played.name, name);
        assert_eq!(played.noise_change, 15);
        assert_eq!(combat.noise.noise(), before + 15);
        assert_eq!(combat.energy, 2);
        assert_eq!(combat.deck.discard_pile_len(), 1);
    }
}

#[test]
fn every_signed_card_noise_value_keeps_its_sign_and_clamps() {
    for noise in i8::MIN..=i8::MAX {
        let mut combat = Combat::with_card("vpn", 5);
        combat.hand[0].noise_generated = noise;
        let expected = (5 + i32::from(noise)).clamp(0, 100);
        assert_eq!(combat.play(0).unwrap().noise_change, expected - 5);
        assert_eq!(combat.noise.noise(), expected);
    }
}

#[test]
fn strike_deals_its_authored_damage_and_it_lands_on_the_sentry() {
    let mut combat = Combat::with_card("strike", 0);
    let health_before = combat.sentry.health();
    let played = combat.play(0).unwrap();
    assert_eq!(played.damage_dealt, 6);
    assert_eq!(combat.sentry.health(), health_before - 6);
}

#[test]
fn non_damage_cards_report_zero_damage_and_leave_the_sentry_untouched() {
    for id in ["vpn", "shield", "background_check", "social_engineering"] {
        let mut combat = Combat::with_card(id, 0);
        let health_before = combat.sentry.health();
        assert_eq!(combat.play(0).unwrap().damage_dealt, 0, "{id} should not deal damage");
        assert_eq!(combat.sentry.health(), health_before);
    }
}

#[test]
fn penetrating_damage_is_counted_the_same_as_plain_damage() {
    let mut combat = Combat::with_card("trojan", 0);
    assert_eq!(combat.play(0).unwrap().damage_dealt, 6);
    assert_eq!(combat.sentry.health(), combat.sentry.max_health() - 6);
}

#[test]
fn a_flipped_card_deals_its_weak_side_damage() {
    let mut combat = Combat::with_card("nigerian_king", 49);
    assert_eq!(combat.play(0).unwrap().damage_dealt, 18);
    let mut combat = Combat::with_card("nigerian_king", 50);
    assert_eq!(combat.play(0).unwrap().damage_dealt, 8);
}

#[test]
fn multi_keyword_cards_sum_every_damage_keyword() {
    let mut combat = Combat::with_card("ransomware", 0);
    assert_eq!(combat.play(0).unwrap().damage_dealt, 10);
}

#[test]
fn damage_clamps_to_the_sentrys_remaining_health_and_reports_the_actual_amount() {
    let mut combat = Combat::with_card("wannacry", 0);
    combat.sentry = Sentry::warden_7().with_health(10);
    let played = combat.play(0).unwrap();
    assert_eq!(played.damage_dealt, 10, "clamped, not the authored 30");
    assert_eq!(combat.sentry.health(), 0);
    assert!(combat.sentry.is_defeated());
}

#[test]
fn damage_against_an_already_defeated_sentry_reports_zero() {
    let mut combat = Combat::with_card("strike", 0);
    combat.sentry = Sentry::warden_7().with_health(0);
    assert!(combat.sentry.is_defeated());
    let played = combat.play(0).unwrap();
    assert_eq!(played.damage_dealt, 0, "nothing left to lose");
    assert_eq!(combat.sentry.health(), 0);
}

#[test]
fn shield_deals_its_authored_amount_and_blocks_noise() {
    let mut combat = Combat::with_card("shield", 0);
    let played = combat.play(0).unwrap();
    assert_eq!(played.shield_added, 6);
    assert_eq!(combat.noise.shield(), 6);
}

#[test]
fn shield_added_by_a_card_blocks_that_same_cards_own_noise() {
    let mut combat = Combat::with_card("burner_phone", 20);
    let played = combat.play(0).unwrap();
    assert_eq!(played.shield_added, 8);
    assert_eq!(played.noise_change, -10);
    assert_eq!(combat.noise.noise(), 10);
    assert_eq!(combat.noise.add(5), 0, "the 8 shield from this play blocks a later 5 noise hit");
}

#[test]
fn non_shield_cards_report_zero_shield_added() {
    for id in ["strike", "vpn", "background_check"] {
        let mut combat = Combat::with_card(id, 0);
        assert_eq!(combat.play(0).unwrap().shield_added, 0, "{id} should not grant shield");
    }
}

#[test]
fn a_play_that_both_shields_and_damages_applies_both_in_the_same_transaction() {
    let mut hybrid = authored("strike");
    hybrid.keywords = vec![Keyword::Damage(6), Keyword::Block(4)];
    let mut combat = Combat::with_card("strike", 0);
    combat.hand[0] = hybrid;
    let health_before = combat.sentry.health();
    let played = combat.play(0).unwrap();
    assert_eq!(played.damage_dealt, 6);
    assert_eq!(played.shield_added, 4);
    assert_eq!(combat.sentry.health(), health_before - 6);
    assert_eq!(combat.noise.shield(), 4);
}

fn oversized() -> CardData {
    let mut card = authored("strike");
    card.id = "overflow".to_string();
    card.keywords = vec![Keyword::Damage(u32::MAX), Keyword::Damage(u32::MAX)];
    card
}

#[test]
fn an_oversized_card_in_hand_does_not_stop_another_card_being_played() {
    let mut combat = Combat::with_card("strike", 0);
    combat.hand.push(oversized());
    assert!(play_can_land_check(&combat.hand, &combat.noise, combat.energy, &combat.sentry, 0));
    assert!(!play_can_land_check(&combat.hand, &combat.noise, combat.energy, &combat.sentry, 1));
    let played = combat.play(0).unwrap();
    assert_eq!(played.damage_dealt, 6);
    assert_eq!(combat.hand.len(), 1);
}

#[test]
fn a_refused_play_of_an_oversized_card_relies_on_nothing() {
    let mut combat = Combat::with_card("strike", 100);
    combat.hand.push(oversized());
    assert!(play_can_land_check(&combat.hand, &combat.noise, combat.energy, &combat.sentry, 1));
    assert_eq!(combat.play(1), Err(PlayError::Detected));
    assert_eq!(combat.hand.len(), 2);
}
