use cyber_heist::noise_meter::NoiseLevel;
use cyber_heist::sentry::{Sentry, SentryAction};

#[test]
fn a_new_sentry_has_its_first_action_queued() {
    let sentry = Sentry::warden_7();
    assert_eq!(sentry.name(), "WARDEN-7");
    assert_eq!(sentry.queued_action().unwrap().name, "Packet Sniff");
}

#[test]
fn performing_the_queued_action_reports_it_and_advances_the_queue() {
    let mut sentry =
        Sentry::new("WARDEN-7", vec![SentryAction::new("Packet Sniff", 1), SentryAction::new("Trace Sweep", 2)]);
    let action = sentry.perform_queued_action().unwrap();
    assert_eq!(action.name, "Packet Sniff");
    assert_eq!(action.noise, 1);
    assert_eq!(sentry.queued_action().unwrap().name, "Trace Sweep");
    sentry.perform_queued_action().unwrap();
    assert_eq!(sentry.queued_action().unwrap().name, "Packet Sniff", "queue wraps back to the start");
}

#[test]
fn each_announced_action_runs_once_and_the_queue_wraps_without_stale_intent() {
    let script = vec![
        SentryAction::new("Packet Sniff", 1),
        SentryAction::new("Trace Sweep", 2),
        SentryAction::new("Lockdown Probe", 3),
    ];
    let mut sentry = Sentry::new("WARDEN-7", script.clone());
    let mut meter = NoiseLevel::new(100);
    for index in 0..7 {
        let expected = &script[index % script.len()];
        let before = sentry.clone();
        assert_eq!(sentry.queued_action(), Some(expected));
        assert_eq!(sentry.queued_action(), Some(expected));
        assert_eq!(sentry, before, "reading intent cannot advance the queue");
        let action = sentry.perform_queued_action().unwrap();
        let noise_before = meter.noise();
        assert_eq!(&action, expected);
        assert_eq!(meter.add(action.noise), expected.noise);
        assert_eq!(meter.noise(), noise_before + expected.noise);
        assert!(!meter.is_at_cap());
        assert_eq!(sentry.queued_action(), Some(&script[(index + 1) % script.len()]));
    }
}

#[test]
fn authored_intent_and_actual_clamped_change_are_distinct_at_cap() {
    let mut sentry = Sentry::new("WARDEN-7", vec![SentryAction::new("Lockdown Probe", 3)]);
    let mut meter = NoiseLevel::new(100);
    meter.add(99);
    let announced = sentry.queued_action().unwrap().clone();
    let action = sentry.perform_queued_action().unwrap();
    assert_eq!(action, announced);
    assert_eq!(action.noise, 3);
    assert_eq!(meter.add(action.noise), 1);
    assert_eq!(meter.noise(), 100);
    assert!(meter.is_at_cap());
    assert_eq!(sentry.queued_action(), Some(&announced));
}

#[test]
fn a_sentry_with_nothing_queued_reports_no_action() {
    let mut sentry = Sentry::new("WARDEN-7", Vec::new());
    assert_eq!(sentry.queued_action(), None);
    assert_eq!(sentry.perform_queued_action(), None);
}

#[test]
fn a_renamed_sentry_reports_the_new_name() {
    let mut sentry = Sentry::warden_7();
    sentry.set_name("BLACKGATE");
    assert_eq!(sentry.name(), "BLACKGATE");
}

#[test]
fn a_fresh_sentry_starts_at_full_health() {
    let sentry = Sentry::warden_7();
    assert_eq!(sentry.health(), sentry.max_health());
    assert_eq!(sentry.health(), 40);
    assert!(!sentry.is_defeated());
}

#[test]
fn with_health_sets_both_current_and_max() {
    let sentry = Sentry::warden_7().with_health(10);
    assert_eq!(sentry.health(), 10);
    assert_eq!(sentry.max_health(), 10);
}

#[test]
fn damage_clamps_at_zero_and_reports_actual_amount_lost() {
    let mut sentry = Sentry::warden_7().with_health(10);
    assert_eq!(sentry.take_damage(6), 6);
    assert_eq!(sentry.health(), 4);
    assert!(!sentry.is_defeated());
    assert_eq!(sentry.take_damage(10), 4, "clamped, not the full 10");
    assert_eq!(sentry.health(), 0);
    assert!(sentry.is_defeated());
    assert_eq!(sentry.take_damage(5), 0, "already dead, no further loss");
    assert_eq!(sentry.health(), 0);
}

#[test]
fn damage_does_not_overshoot_max_health_when_negative() {
    let mut sentry = Sentry::warden_7().with_health(10);
    sentry.take_damage(5);
    assert_eq!(sentry.health(), 5);
    assert_eq!(sentry.take_damage(-100), -5, "clamped to max, not the full heal");
    assert_eq!(sentry.health(), 10);
}

#[test]
fn damage_of_any_size_keeps_health_within_bounds() {
    let mut seed = 0xDEAD_BEEF_u32;
    for max_health in [0, 1, 40, 1_000] {
        let mut sentry = Sentry::warden_7().with_health(max_health);
        for _ in 0..5_000 {
            seed = seed.wrapping_mul(1_664_525).wrapping_add(1_013_904_223);
            let amount = seed as i32;
            let before = sentry.health();
            let lost = sentry.take_damage(amount);
            assert_eq!(sentry.health(), before - lost);
            assert!((0..=max_health).contains(&sentry.health()));
            assert_eq!(sentry.is_defeated(), sentry.health() == 0);
        }
    }
}

#[test]
fn corruption_is_boosted_held_at_zero_and_ticks_down() {
    let mut sentry = Sentry::warden_7();
    assert_eq!(sentry.add_corruption_boost(2), 2);
    assert_eq!(sentry.add_corruption(3), 5, "a rise is strengthened by the boost");
    assert_eq!(sentry.add_corruption(-2), -2, "a fall is not");
    assert_eq!(sentry.add_corruption(-10), -3, "held at zero");
    assert_eq!(sentry.corruption(), 0);
    assert_eq!(sentry.clear_corruption_boost(), 2);
    assert_eq!(sentry.corruption_boost(), 0);
    assert_eq!(sentry.add_corruption_boost(-4), 0, "the boost is held at zero too");
    assert_eq!(sentry.resolve_corruption_tick(), 0, "no corruption, no damage");
    sentry.add_corruption(4);
    assert_eq!(sentry.resolve_corruption_tick(), 4);
    assert_eq!(sentry.health(), 36);
    assert_eq!(sentry.corruption(), 3);
}

#[test]
fn authored_actions_of_any_loudness_survive_repeated_turns() {
    let mut seed = 0xC0FF_EE01_u32;
    for cap in [0, 1, 100, 1_000] {
        let mut script = vec![SentryAction::new("Full Sweep", i32::MAX), SentryAction::new("Total Blackout", i32::MIN)];
        for index in 0..7 {
            seed = seed.wrapping_mul(1_664_525).wrapping_add(1_013_904_223);
            script.push(SentryAction::new(&format!("Action {index}"), seed as i32));
        }
        let mut sentry = Sentry::new("WARDEN-7", script);
        let mut meter = NoiseLevel::new(cap);
        for _ in 0..50_000 {
            let announced = sentry.queued_action().cloned().unwrap();
            let action = sentry.perform_queued_action().unwrap();
            assert_eq!(action, announced);
            let before = meter.noise();
            let delta = meter.add(action.noise);
            assert_eq!(meter.noise() - before, delta);
            assert!((0..=cap).contains(&meter.noise()));
            assert_eq!(meter.is_at_cap(), meter.noise() == cap);
        }
    }
}
