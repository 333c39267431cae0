use cyber_heist::contract_map::{rolled_encounter_type, ContractMap, ContractShape, EncounterType, NodeId};
use rand::rngs::StdRng;
use rand::SeedableRng;

fn generated(seed: u64) -> ContractMap {
    let mut rng = StdRng::seed_from_u64(seed);
    ContractMap::generate(ContractShape::default(), &mut rng)
}

fn offered(contract: &ContractMap) -> Vec<NodeId> {
    contract.selectable_encounters().iter().map(|node| node.id()).collect()
}

#[test]
fn taking_the_last_branch_every_time_still_reaches_the_final_boss() {
    for seed in 0..10 {
        let mut contract = generated(seed);
        let length = ContractShape::default().length();
        let final_node = (contract.node_depths().len() - 1) as NodeId;
        let mut column = 0;
        loop {
            let options = offered(&contract);
            if contract.current_encounter().id() == final_node {
                assert!(options.is_empty(), "seed {seed}: nothing is offered past the final boss");
                break;
            }
            assert!(!options.is_empty(), "seed {seed}: the walk stranded the player in column {column}");
            let choice = *options.last().unwrap();
            contract.select_encounter(choice).unwrap();
            contract.complete_current_encounter().unwrap();
            column += 1;
            assert_eq!(contract.node_depths()[choice as usize], column, "seed {seed}: one column per completed encounter");
        }
        assert_eq!(column + 1, length, "seed {seed}: the walk crossed every column");
    }
}

#[test]
fn a_failed_encounter_leaves_the_same_way_on_open() {
    let mut contract = generated(7);
    let first_choice = offered(&contract)[0];
    contract.select_encounter(first_choice).unwrap();
    contract.fail_current_encounter().unwrap();
    assert_eq!(offered(&contract), vec![first_choice]);
    contract.select_encounter(first_choice).unwrap();
    contract.complete_current_encounter().unwrap();
    assert_eq!(contract.current_encounter().id(), first_choice);
    assert!(!offered(&contract).is_empty());
}

#[test]
fn each_boss_beaten_opens_exactly_one_zone() {
    let mut contract = generated(11);
    let mut bosses = 0;
    let mut standing_on_a_boss = false;
    while !offered(&contract).is_empty() {
        let zone_before = contract.zone_progress().current_zone;
        let choice = offered(&contract)[0];
        let selection = contract.select_encounter(choice).unwrap();
        contract.complete_current_encounter().unwrap();
        let zone_after = contract.zone_progress().current_zone;
        if standing_on_a_boss {
            assert_eq!(zone_after, zone_before + 1, "stepping on from a boss enters the next zone");
        } else {
            assert_eq!(zone_after, zone_before, "a boss closes the zone it guards");
        }
        standing_on_a_boss = selection.encounter_type == EncounterType::Boss;
        if standing_on_a_boss {
            bosses += 1;
        }
        assert_eq!(contract.zone_progress().unlocked_zones, bosses);
    }
    assert_eq!(bosses, ContractShape::default().zone_count);
}

#[test]
fn a_failed_boss_is_the_only_retry() {
    let mut contract = generated(3);
    loop {
        let choice = offered(&contract)[0];
        let selection = contract.select_encounter(choice).unwrap();
        if selection.encounter_type == EncounterType::Boss {
            contract.fail_current_encounter().unwrap();
            assert_eq!(offered(&contract), vec![choice]);
            assert_eq!(contract.zone_progress().unlocked_zones, 0, "failing a boss leaves its zone shut");
            break;
        }
        contract.complete_current_encounter().unwrap();
    }
}

#[test]
fn a_percentile_roll_reads_as_the_encounter_mix() {
    assert_eq!(rolled_encounter_type(0), EncounterType::Combat);
    assert_eq!(rolled_encounter_type(54), EncounterType::Combat);
    assert_eq!(rolled_encounter_type(55), EncounterType::Event);
    assert_eq!(rolled_encounter_type(74), EncounterType::Event);
    assert_eq!(rolled_encounter_type(75), EncounterType::Shop);
    assert_eq!(rolled_encounter_type(89), EncounterType::Shop);
    assert_eq!(rolled_encounter_type(90), EncounterType::Elite);
    assert_eq!(rolled_encounter_type(99), EncounterType::Elite);
}

#[test]
fn generated_contracts_use_the_whole_mix_and_every_width() {
    let mut kinds: Vec<EncounterType> = Vec::new();
    let mut widths = std::collections::HashSet::new();
    for seed in 0..40 {
        let contract = generated(seed);
        for entry in contract.node_progress() {
            if !kinds.contains(&entry.encounter_type) {
                kinds.push(entry.encounter_type);
            }
            let boss_column = entry.depth > 0 && entry.depth % 3 == 0;
            if entry.depth > 0 && !boss_column {
                widths.insert(entry.column_len);
            }
        }
    }
    for kind in [EncounterType::Combat, EncounterType::Event, EncounterType::Shop, EncounterType::Elite] {
        assert!(kinds.contains(&kind), "no generated node was ever a {kind:?}");
    }
    assert_eq!(widths, [2usize, 3].into_iter().collect(), "middle columns hold two or three nodes");
}

#[test]
fn the_map_always_marks_exactly_one_node_as_current() {
    let mut contract = generated(21);
    loop {
        let entries = contract.node_progress();
        let current: Vec<NodeId> = entries.iter().filter(|entry| entry.is_current).map(|entry| entry.node_id).collect();
        assert_eq!(current, vec![contract.current_encounter().id()]);
        let options = offered(&contract);
        if options.is_empty() {
            break;
        }
        contract.select_encounter(options[0]).unwrap();
        contract.complete_current_encounter().unwrap();
    }
    let progress = contract.progress();
    assert_eq!(progress.completed, progress.total);
}

#[test]
fn a_generated_node_shares_at_most_two_of_its_links() {
    for seed in 0..40 {
        let entries = generated(seed).node_progress();
        for entry in &entries {
            let shared = entry
                .connections
                .iter()
                .filter(|target| {
                    entries.iter().any(|other| {
                        other.node_id != entry.node_id && other.depth == entry.depth && other.connections.contains(target)
                    })
                })
                .count();
            assert!(shared <= 2, "seed {seed}: node {} shares {shared} of its links", entry.node_id);
            if entry.depth + 1 < ContractShape::default().length() {
                assert!(!entry.connections.is_empty());
            }
        }
    }
}
