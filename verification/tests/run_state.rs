use cyber_heist::run_state::{ContractPhase, EncounterType, RunState, RunStateError};

fn active_combat() -> RunState {
    let mut state = RunState::new();
    state.start_encounter("combat-demo-1", "combat").unwrap();
    state
}

#[test]
fn initial_state_is_hub_without_an_encounter() {
    let state = RunState::new();
    assert_eq!(state.phase(), ContractPhase::Hub);
    assert_eq!(state.active_encounter(), None);
}

#[test]
fn starting_combat_records_identity_and_type() {
    let mut state = RunState::new();
    state.start_encounter("combat-demo-1", "combat").unwrap();
    assert_eq!(state.phase(), ContractPhase::EncounterActive);
    let encounter = state.active_encounter().unwrap();
    assert_eq!(encounter.id(), "combat-demo-1");
    assert_eq!(encounter.encounter_type(), EncounterType::Combat);
}

#[test]
fn completing_encounter_returns_to_hub_and_clears_it() {
    let mut state = active_combat();
    state.complete_encounter().unwrap();
    assert_eq!(state.phase(), ContractPhase::Hub);
    assert_eq!(state.active_encounter(), None);
}

#[test]
fn reporting_caught_retains_the_active_encounter() {
    let mut state = active_combat();
    state.report_caught().unwrap();
    assert_eq!(state.phase(), ContractPhase::Caught);
    assert_eq!(state.active_encounter().unwrap().id(), "combat-demo-1");
}

#[test]
fn finishing_caught_returns_to_hub_and_clears_the_encounter() {
    let mut state = active_combat();
    state.report_caught().unwrap();
    state.finish_caught().unwrap();
    assert_eq!(state.phase(), ContractPhase::Hub);
    assert_eq!(state.active_encounter(), None);
}

#[test]
fn starting_a_second_encounter_is_rejected_without_mutation() {
    let mut state = active_combat();
    let before = state.clone();
    let result = state.start_encounter("event-2", "event");
    assert!(matches!(result, Err(RunStateError::InvalidTransition { .. })));
    assert_eq!(state, before);
}

#[test]
fn completing_or_reporting_caught_from_hub_is_rejected() {
    let mut complete_state = RunState::new();
    let complete_before = complete_state.clone();
    let mut caught_state = RunState::new();
    let caught_before = caught_state.clone();
    assert!(matches!(complete_state.complete_encounter(), Err(RunStateError::InvalidTransition { .. })));
    assert!(matches!(caught_state.report_caught(), Err(RunStateError::InvalidTransition { .. })));
    assert_eq!(complete_state, complete_before);
    assert_eq!(caught_state, caught_before);
}

#[test]
fn finishing_caught_outside_caught_is_rejected_without_mutation() {
    let mut state = active_combat();
    let before = state.clone();
    let result = state.finish_caught();
    assert!(matches!(result, Err(RunStateError::InvalidTransition { .. })));
    assert_eq!(state, before);
}

#[test]
fn invalid_encounter_identity_and_type_are_rejected_without_mutation() {
    let mut empty_id_state = RunState::new();
    let empty_id_before = empty_id_state.clone();
    let mut unknown_type_state = RunState::new();
    let unknown_type_before = unknown_type_state.clone();
    assert_eq!(empty_id_state.start_encounter("   ", "combat"), Err(RunStateError::EmptyEncounterId));
    assert_eq!(
        unknown_type_state.start_encounter("encounter-1", "mystery"),
        Err(RunStateError::UnknownEncounterType("mystery".into()))
    );
    assert_eq!(empty_id_state, empty_id_before);
    assert_eq!(unknown_type_state, unknown_type_before);
}

#[test]
fn an_encounter_id_is_kept_without_its_surrounding_whitespace() {
    let mut state = RunState::new();
    state.start_encounter("\t shop-3 \n", "shop").unwrap();
    assert_eq!(state.active_encounter().unwrap().id(), "shop-3");
    assert_eq!(state.active_encounter().unwrap().encounter_type(), EncounterType::Shop);
}

#[test]
fn refusals_explain_themselves() {
    let mut state = active_combat();
    let error = state.start_encounter("event-2", "event").unwrap_err();
    assert_eq!(error.message(), "cannot start encounter while phase is encounter_active");
    assert_eq!(RunStateError::EmptyEncounterId.message(), "encounter id must not be empty");
    assert_eq!(RunStateError::UnknownEncounterType("mystery".into()).message(), "unknown encounter type: mystery");
    let mut hub = RunState::default();
    assert_eq!(hub.finish_caught().unwrap_err().message(), "cannot finish caught while phase is hub");
    assert_eq!(ContractPhase::Caught.as_str(), "caught");
    assert_eq!(EncounterType::Elite.as_str(), "elite");
}

#[test]
fn a_boss_encounter_starts_like_any_other() {
    let mut state = RunState::new();
    assert_eq!(state.start_encounter("boss-1", "boss"), Ok(()));
    assert_eq!(state.phase(), ContractPhase::EncounterActive);
    let encounter = state.active_encounter().unwrap();
    assert_eq!(encounter.id(), "boss-1");
    assert_eq!(encounter.encounter_type().as_str(), "boss");
}
