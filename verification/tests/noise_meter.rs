use cyber_heist::noise_meter::NoiseLevel;

#[test]
fn a_new_level_starts_silent() {
    let level = NoiseLevel::new(100);
    assert_eq!(level.noise(), 0);
    assert_eq!(level.shield(), 0);
    assert!(!level.is_at_cap());
}

#[test]
fn adding_noise_moves_the_meter_and_reports_the_change() {
    let mut level = NoiseLevel::new(100);
    assert_eq!(level.add(15), 15);
    assert_eq!(level.noise(), 15);
}

#[test]
fn noise_never_drops_below_zero() {
    let mut level = NoiseLevel::new(100);
    level.add(5);
    assert_eq!(level.add(-20), -5);
    assert_eq!(level.noise(), 0);
}

#[test]
fn noise_never_exceeds_the_cap() {
    let mut level = NoiseLevel::new(10);
    assert_eq!(level.add(999), 10);
    assert!(level.is_at_cap());
}

#[test]
fn an_enormous_amount_fills_the_meter_rather_than_overflowing_it() {
    let mut level = NoiseLevel::new(10);
    level.add(1);
    assert_eq!(level.add(i32::MAX), 9);
    assert_eq!(level.noise(), 10);
}

#[test]
fn an_enormous_quietening_empties_the_meter_rather_than_overflowing_it() {
    let mut level = NoiseLevel::new(10);
    level.add(4);
    assert_eq!(level.add(i32::MIN), -4);
    assert_eq!(level.noise(), 0);
}

#[test]
fn a_fresh_level_resists_nothing() {
    let mut level = NoiseLevel::new(100);
    assert_eq!(level.resistance_percent(), 0);
    level.add(50);
    assert_eq!(level.add(-10), -10, "recovery lands in full by default");
    assert_eq!(level.noise(), 40);
}

#[test]
fn resistance_blunts_recovery_but_never_the_noise_going_on() {
    let mut level = NoiseLevel::new(100);
    level.set_resistance_percent(40);
    assert_eq!(level.add(50), 50, "the system's own noise is unaffected");
    assert_eq!(level.add(-10), -6, "a 10 point recovery lands as 6");
    assert_eq!(level.noise(), 44);
}

#[test]
fn shield_and_boss_resistance_apply_to_opposite_noise_directions() {
    let mut level = NoiseLevel::new(100);
    level.add(50);
    level.set_resistance_percent(30);
    level.add_shield(6);
    assert_eq!(level.add(-10), -7, "resistance blunts recovery");
    assert_eq!(level.shield(), 6, "recovery does not spend shield");
    assert_eq!(level.add(7), 1, "shield absorbs positive boss noise");
    assert_eq!(level.shield(), 0);
    assert_eq!(level.noise(), 44);
}

#[test]
fn total_resistance_cancels_recovery_without_reversing_it() {
    let mut level = NoiseLevel::new(100);
    level.add(30);
    level.set_resistance_percent(100);
    assert_eq!(level.add(-25), 0, "nothing comes off");
    assert_eq!(level.noise(), 30, "and nothing goes on either");
}

#[test]
fn a_resisted_recovery_rounds_towards_zero_rather_than_paying_out() {
    let mut level = NoiseLevel::new(100);
    level.add(50);
    level.set_resistance_percent(99);
    assert_eq!(level.add(-5), 0);
    assert_eq!(level.noise(), 50);
}

#[test]
fn resistance_outside_its_range_is_clamped_rather_than_believed() {
    let mut level = NoiseLevel::new(100);
    level.set_resistance_percent(-30);
    assert_eq!(level.resistance_percent(), 0);
    level.set_resistance_percent(250);
    assert_eq!(level.resistance_percent(), 100);
}

#[test]
fn an_enormous_quietening_is_still_safe_against_resistance() {
    for percent in [0, 1, 50, 99, 100] {
        let mut level = NoiseLevel::new(10);
        level.set_resistance_percent(percent);
        level.add(4);
        let change = level.add(i32::MIN);
        assert!((0..=10).contains(&level.noise()), "resistance {percent} left the meter at {}", level.noise());
        assert!(change <= 0, "a quietening cannot raise the meter");
    }
}

#[test]
fn shield_fully_absorbs_noise_up_to_its_amount() {
    let mut level = NoiseLevel::new(100);
    level.add_shield(5);
    assert_eq!(level.add(3), 0, "3 noise fully absorbed by 5 shield");
    assert_eq!(level.noise(), 0);
    assert_eq!(level.shield(), 2, "2 shield left after blocking 3");
}

#[test]
fn shield_partially_absorbs_noise_larger_than_itself() {
    let mut level = NoiseLevel::new(100);
    level.add_shield(4);
    assert_eq!(level.add(10), 6, "4 blocked, 6 gets through");
    assert_eq!(level.noise(), 6);
    assert_eq!(level.shield(), 0);
}

#[test]
fn shield_does_not_block_noise_reduction() {
    let mut level = NoiseLevel::new(100);
    level.add(20);
    level.add_shield(5);
    assert_eq!(level.add(-8), -8, "recovery is unaffected by shield");
    assert_eq!(level.noise(), 12);
    assert_eq!(level.shield(), 5, "shield untouched by a reduction");
}

#[test]
fn shield_blocks_noise_regardless_of_source() {
    let mut level = NoiseLevel::new(100);
    level.add_shield(10);
    assert_eq!(level.add(4), 0, "blocks the player's own card noise");
    assert_eq!(level.shield(), 6);
    assert_eq!(level.add(6), 0, "blocks noise from another source too");
    assert_eq!(level.shield(), 0);
}

#[test]
fn add_shield_reports_the_actual_amount_added() {
    let mut level = NoiseLevel::new(100);
    assert_eq!(level.add_shield(5), 5);
    assert_eq!(level.add_shield(3), 3);
    assert_eq!(level.shield(), 8);
}

#[test]
fn add_shield_cannot_go_negative() {
    let mut level = NoiseLevel::new(100);
    assert_eq!(level.add_shield(-5), 0, "clamped, nothing to remove yet");
    assert_eq!(level.shield(), 0);
}

#[test]
fn clear_shield_zeroes_it_and_reports_what_was_cleared() {
    let mut level = NoiseLevel::new(100);
    level.add_shield(7);
    assert_eq!(level.clear_shield(), 7);
    assert_eq!(level.shield(), 0);
    assert_eq!(level.clear_shield(), 0, "nothing left to clear");
}

#[test]
fn an_enormous_shield_and_amount_do_not_overflow() {
    let mut level = NoiseLevel::new(10);
    level.add_shield(i32::MAX);
    assert_eq!(level.add(i32::MAX), 0, "even i32::MAX noise is absorbed");
    assert_eq!(level.noise(), 0);
}

const EDGE_AMOUNTS: [i32; 12] =
    [i32::MIN, i32::MIN + 1, i32::MIN / 2, -1_000_000, -11, -1, 0, 1, 11, 1_000_000, i32::MAX - 1, i32::MAX];

fn assert_in_range(level: &NoiseLevel, delta: i32, before: i32) {
    assert!(level.noise() >= 0 && level.noise() <= level.max_noise());
    assert!(level.shield() >= 0);
    assert_eq!(level.noise() - before, delta);
    assert_eq!(level.is_at_cap(), level.noise() >= level.max_noise());
}

#[test]
fn every_pair_of_edge_amounts_keeps_the_meter_in_range() {
    for cap in [0, 1, 10, 1_000, i32::MAX] {
        for first in EDGE_AMOUNTS {
            for second in EDGE_AMOUNTS {
                let mut level = NoiseLevel::new(cap);
                let before = level.noise();
                let delta = level.add(first);
                assert_in_range(&level, delta, before);
                let before = level.noise();
                let delta = level.add(second);
                assert_in_range(&level, delta, before);
            }
        }
    }
}

#[test]
fn a_negative_cap_counts_as_none() {
    let mut level = NoiseLevel::new(-5);
    assert_eq!(level.max_noise(), 0);
    assert!(level.is_at_cap());
    assert_eq!(level.add(3), 0);
}

struct Lcg(u32);

impl Lcg {
    fn next_amount(&mut self) -> i32 {
        self.0 = self.0.wrapping_mul(1_664_525).wrapping_add(1_013_904_223);
        self.0 as i32
    }
}

#[test]
fn a_long_run_of_random_amounts_keeps_the_meter_in_range() {
    let mut rng = Lcg(0x5EED_1234);
    for cap in [0, 1, 10, 97, i32::MAX] {
        let mut level = NoiseLevel::new(cap);
        for _ in 0..200_000 {
            let before = level.noise();
            let delta = level.add(rng.next_amount());
            assert_in_range(&level, delta, before);
        }
    }
}

#[test]
fn shield_and_noise_interleaved_randomly_keep_both_in_range() {
    let mut rng = Lcg(0xC0FF_EE99);
    for cap in [0, 1, 10, 97, i32::MAX] {
        let mut level = NoiseLevel::new(cap);
        for i in 0..200_000 {
            if i % 3 == 0 {
                let amount = rng.next_amount();
                let before = level.shield();
                let delta = level.add_shield(amount);
                assert!(level.shield() >= 0);
                assert_eq!(level.shield() - before, delta);
            } else {
                let before = level.noise();
                let delta = level.add(rng.next_amount());
                assert_in_range(&level, delta, before);
            }
        }
    }
}
