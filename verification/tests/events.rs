use cyber_heist::events::{event_catalogue, random_event, EventChoice, EventDefinition, EventEffect, EventOutcome};
use rand::rngs::StdRng;
use rand::SeedableRng;

#[test]
fn every_event_offers_at_least_two_previewed_choices() {
    for event in event_catalogue() {
        assert!(event.choices.len() >= 2, "event '{}' only offers {} choice(s)", event.id, event.choices.len());
        for choice in &event.choices {
            assert!(!choice.label.trim().is_empty(), "a choice in event '{}' has no label", event.id);
            assert!(!choice.preview.trim().is_empty(), "choice '{}' in event '{}' has no preview", choice.label, event.id);
        }
    }
}

#[test]
fn gamble_chances_leave_both_outcomes_reachable() {
    for event in event_catalogue() {
        for choice in &event.choices {
            if let EventOutcome::Gamble { success_chance, .. } = &choice.outcome {
                assert!((1..=99).contains(success_chance), "choice '{}' has a {}% chance", choice.label, success_chance);
            }
        }
    }
}

#[test]
fn event_ids_are_unique() {
    let catalogue = event_catalogue();
    let mut ids: Vec<&str> = catalogue.iter().map(|e| e.id.as_str()).collect();
    ids.sort_unstable();
    let unique = ids.len();
    ids.dedup();
    assert_eq!(unique, ids.len(), "duplicate event id in the catalogue");
}

fn gamble_event(success_chance: u8) -> EventDefinition {
    EventDefinition {
        id: "test_event".to_string(),
        title: "Test Event".to_string(),
        description: "A test".to_string(),
        choices: vec![
            EventChoice::gamble(
                "Take the risk",
                "Might pay off",
                success_chance,
                EventEffect::new(50, Some("Lucky Charm"), "It worked"),
                EventEffect::new(-20, None, "It did not work"),
            ),
            EventChoice::certain("Play it safe", "Nothing happens", EventEffect::new(0, None, "You walk away")),
        ],
    }
}

#[test]
fn a_certain_choice_always_resolves_to_its_effect() {
    let event = gamble_event(50);
    let mut rng = StdRng::seed_from_u64(11);
    for _ in 0..20 {
        let effect = event.resolve(1, &mut rng).expect("choice 1 exists");
        assert_eq!(effect, EventEffect::new(0, None, "You walk away"));
    }
}

#[test]
fn a_gamble_can_land_on_either_side() {
    let always_wins = gamble_event(99);
    let always_loses = gamble_event(1);
    let mut rng = StdRng::seed_from_u64(7);
    let mut wins = 0;
    let mut losses = 0;
    for _ in 0..200 {
        if always_wins.resolve(0, &mut rng).unwrap().credits == 50 {
            wins += 1;
        }
        if always_loses.resolve(0, &mut rng).unwrap().credits == -20 {
            losses += 1;
        }
    }
    assert!(wins > 150, "a 99% chance should mostly succeed, got {wins}/200");
    assert!(losses > 150, "a 1% chance should mostly fail, got {losses}/200");
}

#[test]
fn a_winning_gamble_carries_its_upgrade_and_credits() {
    let event = gamble_event(99);
    let mut rng = StdRng::seed_from_u64(3);
    let effect = event.resolve(0, &mut rng).expect("choice 0 exists");
    assert_eq!(effect.credits, 50);
    assert_eq!(effect.upgrade.as_deref(), Some("Lucky Charm"));
    assert_eq!(effect.summary, "It worked");
}

#[test]
fn an_out_of_range_choice_resolves_to_nothing() {
    let event = gamble_event(50);
    let mut rng = StdRng::seed_from_u64(1);
    assert_eq!(event.resolve(2, &mut rng), None);
    assert_eq!(event.resolve(99, &mut rng), None);
}

#[test]
fn random_event_returns_a_catalogue_entry() {
    let catalogue_ids: Vec<String> = event_catalogue().into_iter().map(|e| e.id).collect();
    let mut rng = StdRng::seed_from_u64(21);
    for _ in 0..30 {
        let event = random_event(&mut rng);
        assert!(catalogue_ids.contains(&event.id), "random_event returned unknown id '{}'", event.id);
    }
}

#[test]
fn a_roll_at_the_chance_wins_and_one_past_it_loses() {
    let event = gamble_event(60);
    assert_eq!(event.resolve_with_roll(0, 60).unwrap().credits, 50);
    assert_eq!(event.resolve_with_roll(0, 61).unwrap().credits, -20);
    assert_eq!(event.resolve_with_roll(0, 1).unwrap().upgrade.as_deref(), Some("Lucky Charm"));
    assert_eq!(event.resolve_with_roll(1, 100).unwrap().summary, "You walk away");
    assert_eq!(event.resolve_with_roll(5, 1), None);
}

#[test]
fn the_catalogue_holds_the_three_authored_events() {
    let catalogue = event_catalogue();
    let ids: Vec<&str> = catalogue.iter().map(|e| e.id.as_str()).collect();
    assert_eq!(ids, vec!["unsecured_terminal", "black_market_broker", "abandoned_data_cache"]);
    assert_eq!(
        catalogue[0].description,
        "A maintenance terminal three floors down is still logged in. Someone will notice eventually."
    );
    assert_eq!(catalogue[1].choices[0].outcome, EventOutcome::Certain(EventEffect::new(
        -100,
        Some("Exploit Kit"),
        "She hands over the kit without a word. -100 credits, Exploit Kit acquired."
    )));
}
