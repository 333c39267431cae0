use cyber_heist::knowledge::Knowledge;

#[test]
fn starts_at_one() {
    let knowledge = Knowledge::new(3);
    assert_eq!(knowledge.level(), 1);
    assert_eq!(knowledge.max_level(), 3);
}

#[test]
fn adding_moves_the_level_and_reports_the_change() {
    let mut knowledge = Knowledge::new(3);
    assert_eq!(knowledge.add(1), 1);
    assert_eq!(knowledge.level(), 2);
}

#[test]
fn clamps_at_the_cap() {
    let mut knowledge = Knowledge::new(3);
    assert_eq!(knowledge.add(10), 2, "1 -> 3 is a delta of 2, not 10");
    assert_eq!(knowledge.level(), 3);
}

#[test]
fn clamps_at_zero() {
    let mut knowledge = Knowledge::new(3);
    assert_eq!(knowledge.add(-10), -1, "1 -> 0 is a delta of -1, not -10");
    assert_eq!(knowledge.level(), 0);
}

#[test]
fn a_zero_max_level_still_starts_at_zero_not_one() {
    let knowledge = Knowledge::new(0);
    assert_eq!(knowledge.level(), 0);
    assert_eq!(knowledge.max_level(), 0);
}

#[test]
fn an_enormous_amount_does_not_overflow() {
    let mut knowledge = Knowledge::new(3);
    assert_eq!(knowledge.add(i32::MAX), 2);
    assert_eq!(knowledge.level(), 3);
    assert_eq!(knowledge.add(i32::MIN), -3);
    assert_eq!(knowledge.level(), 0);
}

#[test]
fn a_negative_max_level_counts_as_none() {
    let knowledge = Knowledge::new(-4);
    assert_eq!(knowledge.max_level(), 0);
    assert_eq!(knowledge.level(), 0);
}
