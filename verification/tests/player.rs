use cyber_heist::events::{apply_effect, choose_on_event, EventChoice, EventChoiceError, EventDefinition, EventEffect};
use cyber_heist::player::Wallet;
use rand::rngs::StdRng;
use rand::SeedableRng;

#[test]
fn a_new_wallet_is_empty() {
    let wallet = Wallet::new();
    assert_eq!(wallet.money(), 0);
    assert!(wallet.upgrades().is_empty());
}

#[test]
fn credits_and_upgrades_accumulate() {
    let mut wallet = Wallet::new();
    wallet.add_credits(120);
    wallet.add_credits(-20);
    wallet.add_upgrade("Signal Booster");
    assert_eq!(wallet.money(), 100);
    assert_eq!(wallet.upgrades(), ["Signal Booster".to_string()]);
}

#[test]
fn a_penalty_costs_the_fine_and_every_upgrade() {
    let mut wallet = Wallet::new();
    wallet.add_credits(50);
    wallet.add_upgrade("Ghost Key");
    wallet.add_upgrade("Lucky Charm");
    let lost = wallet.apply_penalty(80);
    assert_eq!(lost, vec!["Ghost Key".to_string(), "Lucky Charm".to_string()]);
    assert_eq!(wallet.money(), -30);
    assert!(wallet.upgrades().is_empty());
}

fn two_choice_event() -> EventDefinition {
    EventDefinition {
        id: "vault".to_string(),
        title: "Vault".to_string(),
        description: "An unguarded vault".to_string(),
        choices: vec![
            EventChoice::certain("Grab the cash", "+40 credits", EventEffect::new(40, Some("Vault Map"), "You pocket it")),
            EventChoice::certain("Leave", "Nothing happens", EventEffect::new(0, None, "You walk away")),
        ],
    }
}

#[test]
fn choosing_on_an_event_is_refused_in_each_wrong_state() {
    let mut rng = StdRng::seed_from_u64(2);
    let event = two_choice_event();
    assert_eq!(choose_on_event(None, false, 0, &mut rng), Err(EventChoiceError::NoEvent));
    assert_eq!(choose_on_event(Some(&event), true, 0, &mut rng), Err(EventChoiceError::AlreadyResolved));
    assert_eq!(choose_on_event(Some(&event), false, -1, &mut rng), Err(EventChoiceError::InvalidIndex));
    assert_eq!(choose_on_event(Some(&event), false, 2, &mut rng), Err(EventChoiceError::UnavailableChoice));
}

#[test]
fn a_confirmed_choice_resolves_and_lands_in_the_wallet() {
    let mut rng = StdRng::seed_from_u64(2);
    let event = two_choice_event();
    let effect = choose_on_event(Some(&event), false, 0, &mut rng).unwrap();
    assert_eq!(effect, EventEffect::new(40, Some("Vault Map"), "You pocket it"));
    let mut wallet = Wallet::new();
    wallet.add_credits(10);
    apply_effect(&mut wallet, &effect);
    assert_eq!(wallet.money(), 50);
    assert_eq!(wallet.upgrades(), ["Vault Map".to_string()]);
}
