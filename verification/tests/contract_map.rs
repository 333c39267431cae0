use cyber_heist::contract_map::{
    ContractMap, ContractMapError, ContractProgress, ContractShape, EncounterNode, EncounterType, NodeId, NodeProgress,
    NodeStatus,
    ZoneProgress,
};
use rand::rngs::StdRng;
use rand::SeedableRng;

fn branching_map() -> ContractMap {
    ContractMap::new(
        vec![
            EncounterNode::new(0, EncounterType::Entry, vec![1, 2]),
            EncounterNode::new(1, EncounterType::Combat, vec![3]),
            EncounterNode::new(2, EncounterType::Event, vec![]),
            EncounterNode::new(3, EncounterType::Elite, vec![2]),
        ],
        0,
    )
    .unwrap()
}

fn status_of(contract: &ContractMap, node_id: NodeId) -> NodeStatus {
    contract
        .node_progress()
        .into_iter()
        .find(|entry| entry.node_id == node_id)
        .expect("node exists on the contract")
        .status
}

fn progress_of(contract: &ContractMap, node_id: NodeId) -> NodeProgress {
    contract
        .node_progress()
        .into_iter()
        .find(|entry| entry.node_id == node_id)
        .expect("node exists on the contract")
}

/// Horizontal position on the map: 0.0 at the entry column, 1.0 at the target.
fn x_of(entry: &NodeProgress) -> f32 {
    if entry.max_depth == 0 {
        0.5
    } else {
        entry.depth as f32 / entry.max_depth as f32
    }
}

/// Vertical position within the column, 0.0 top to 1.0 bottom.
fn y_of(entry: &NodeProgress) -> f32 {
    (entry.row + 1) as f32 / (entry.column_len + 1) as f32
}

fn generated(seed: u64) -> ContractMap {
    let mut rng = StdRng::seed_from_u64(seed);
    ContractMap::generate(ContractShape::default(), &mut rng)
}

fn selectable_ids(contract: &ContractMap) -> Vec<NodeId> {
    contract.selectable_encounters().iter().map(|node| node.id()).collect()
}

fn standing_before_the_first_boss() -> ContractMap {
    let mut contract = ContractMap::demo_zoned();
    contract.select_encounter(1).expect("node 1 is reachable");
    contract.complete_current_encounter().expect("an encounter is active");
    contract
}

#[test]
fn every_reachable_next_encounter_is_selectable_with_its_type() {
    let contract = branching_map();
    let selectable: Vec<_> =
        contract.selectable_encounters().into_iter().map(|node| (node.id(), node.encounter_type())).collect();
    assert_eq!(selectable, vec![(1, EncounterType::Combat), (2, EncounterType::Event)]);
}

#[test]
fn selecting_starts_an_encounter_and_completion_advances_to_it() {
    let mut contract = branching_map();
    let selected = contract.select_encounter(1).unwrap();
    assert_eq!(selected.node_id, 1);
    assert_eq!(selected.encounter_type, EncounterType::Combat);
    assert_eq!(contract.current_encounter().id(), 0);
    assert!(contract.selectable_encounters().is_empty());
    contract.complete_current_encounter().unwrap();
    assert_eq!(contract.current_encounter().id(), 1);
}

#[test]
fn unchosen_branch_stays_locked_even_if_a_later_node_links_to_it() {
    let mut contract = branching_map();
    contract.select_encounter(1).unwrap();
    contract.complete_current_encounter().unwrap();
    contract.select_encounter(3).unwrap();
    contract.complete_current_encounter().unwrap();
    assert!(contract.selectable_encounters().is_empty());
    assert_eq!(
        contract.select_encounter(2),
        Err(ContractMapError::EncounterNotReachable { from: 3, requested: 2 })
    );
}

#[test]
fn locked_or_non_adjacent_selection_does_not_mutate_the_contract() {
    let mut contract = branching_map();
    let before = contract.clone();
    assert!(matches!(contract.select_encounter(3), Err(ContractMapError::EncounterNotReachable { .. })));
    assert_eq!(contract, before);
}

#[test]
fn another_route_cannot_be_chosen_while_an_encounter_is_active() {
    let mut contract = branching_map();
    contract.select_encounter(1).unwrap();
    assert_eq!(contract.select_encounter(2), Err(ContractMapError::EncounterAlreadyInProgress(1)));
}

#[test]
fn invalid_graph_connections_are_rejected() {
    let result = ContractMap::new(vec![EncounterNode::new(0, EncounterType::Entry, vec![99])], 0);
    assert_eq!(result, Err(ContractMapError::UnknownConnection { from: 0, to: 99 }));
}

#[test]
fn duplicate_outgoing_connections_are_rejected() {
    let result = ContractMap::new(
        vec![
            EncounterNode::new(0, EncounterType::Entry, vec![1, 1]),
            EncounterNode::new(1, EncounterType::Combat, vec![]),
        ],
        0,
    );
    assert_eq!(result, Err(ContractMapError::DuplicateConnection { from: 0, to: 1 }));
}

#[test]
fn cyclic_contract_graphs_are_rejected() {
    let result = ContractMap::new(
        vec![
            EncounterNode::new(0, EncounterType::Entry, vec![1]),
            EncounterNode::new(1, EncounterType::Combat, vec![2]),
            EncounterNode::new(2, EncounterType::Event, vec![1]),
        ],
        0,
    );
    assert_eq!(result, Err(ContractMapError::CyclicGraph));
}

#[test]
fn failed_encounter_can_be_retried_without_unlocking_its_sibling() {
    let mut contract = branching_map();
    contract.select_encounter(1).unwrap();
    contract.fail_current_encounter().unwrap();
    let selectable: Vec<_> = contract.selectable_encounters().into_iter().map(|node| node.id()).collect();
    assert_eq!(contract.current_encounter().id(), 0);
    assert_eq!(selectable, vec![1]);
}

#[test]
fn a_new_contract_has_no_completed_encounters_and_zero_progress() {
    let contract = ContractMap::demo();
    let progress = contract.progress();
    assert_eq!(progress.completed, 0);
    assert_eq!(progress.total, 3, "a route through the demo contract is 3 encounters after the entry");
    assert!(
        !contract.node_progress().iter().any(|entry| entry.status == NodeStatus::Completed),
        "nothing should be marked completed before anything is played"
    );
    assert_eq!(status_of(&contract, 0), NodeStatus::Current);
}

#[test]
fn completing_an_encounter_marks_it_and_leaves_others_distinct() {
    let mut contract = ContractMap::demo();
    contract.select_encounter(1).expect("node 1 is reachable");
    contract.complete_current_encounter().expect("an encounter is active");
    assert_eq!(status_of(&contract, 1), NodeStatus::Completed);
    assert_eq!(status_of(&contract, 2), NodeStatus::Locked, "the branch not taken is locked out");
    assert_eq!(status_of(&contract, 3), NodeStatus::Available, "the next encounter on the chosen route can be selected");
    assert_eq!(status_of(&contract, 5), NodeStatus::Upcoming, "later encounters are not reachable yet");
}

#[test]
fn nodes_behind_a_locked_branch_are_locked_too() {
    let mut contract = ContractMap::demo();
    contract.select_encounter(1).expect("node 1 is reachable");
    contract.complete_current_encounter().expect("an encounter is active");
    assert_eq!(status_of(&contract, 2), NodeStatus::Locked, "the branch passed over");
    assert_eq!(status_of(&contract, 4), NodeStatus::Locked, "node 4 is only reachable through node 2");
    assert_eq!(status_of(&contract, 3), NodeStatus::Available, "the route actually taken stays open");
    assert_eq!(status_of(&contract, 5), NodeStatus::Upcoming, "the target is still ahead on the chosen route");
}

#[test]
fn the_next_zone_stays_sealed_until_the_boss_is_beaten() {
    let contract = standing_before_the_first_boss();
    assert_eq!(contract.zone_progress(), ZoneProgress { current_zone: 0, unlocked_zones: 0, total_zones: 2 });
    for node_id in [4, 5, 6] {
        assert_eq!(status_of(&contract, node_id), NodeStatus::Sealed, "node {node_id} is in zone 2");
    }
    assert_eq!(selectable_ids(&contract), vec![3], "the boss is the only way on");
}

#[test]
fn beating_the_boss_unlocks_the_next_zone_and_offers_its_nodes() {
    let mut contract = standing_before_the_first_boss();
    contract.select_encounter(3).expect("the boss is reachable");
    contract.complete_current_encounter().expect("the boss encounter is active");
    assert_eq!(
        contract.zone_progress(),
        ZoneProgress { current_zone: 0, unlocked_zones: 1, total_zones: 2 },
        "clearing the boss opens the zone it was guarding"
    );
    assert_eq!(selectable_ids(&contract), vec![4, 5], "both of the next zone's opening nodes are enterable");
    for node_id in [4, 5] {
        assert_eq!(status_of(&contract, node_id), NodeStatus::Available);
    }
    assert!(!contract.node_progress().iter().any(|entry| entry.status == NodeStatus::Sealed));
    contract.select_encounter(4).expect("node 4 is now open");
    contract.complete_current_encounter().expect("an encounter is active");
    assert_eq!(contract.zone_progress().current_zone, 1);
}

#[test]
fn an_edge_that_bypasses_the_boss_is_still_refused() {
    let contract = ContractMap::new(
        vec![
            EncounterNode::new(0, EncounterType::Entry, vec![1, 2]),
            EncounterNode::new(1, EncounterType::Boss, vec![2]),
            EncounterNode::new(2, EncounterType::Combat, vec![]),
        ],
        0,
    )
    .expect("the bypass graph is valid");
    let before = contract.clone();
    assert_eq!(
        contract.encounter_option(2),
        Err(ContractMapError::ZoneSealed { requested: 2, zone: 1 }),
        "the zone gate holds even where the graph offers a way round"
    );
    assert_eq!(contract, before, "a refused entry changes nothing");
    assert_eq!(selectable_ids(&contract), vec![1], "only the boss is on offer");
    assert_eq!(status_of(&contract, 2), NodeStatus::Sealed);
    assert!(
        ContractMapError::ZoneSealed { requested: 2, zone: 1 }.message().contains("zone 2"),
        "the message counts zones the way the player does"
    );
}

#[test]
fn a_failed_boss_encounter_leaves_the_next_zone_sealed() {
    let mut contract = standing_before_the_first_boss();
    contract.select_encounter(3).expect("the boss is reachable");
    contract.fail_current_encounter().expect("the boss encounter is active");
    assert_eq!(contract.zone_progress().unlocked_zones, 0);
    assert_eq!(status_of(&contract, 4), NodeStatus::Sealed);
    assert_eq!(selectable_ids(&contract), vec![3], "the boss is still the only way on");
}

#[test]
fn a_node_ruled_out_by_an_earlier_choice_reads_as_locked_not_sealed() {
    let mut contract = ContractMap::demo_zoned();
    contract.select_encounter(1).expect("node 1 is reachable");
    contract.complete_current_encounter().expect("an encounter is active");
    assert_eq!(status_of(&contract, 2), NodeStatus::Locked);
}

#[test]
fn a_contract_without_a_boss_is_a_single_unsealed_zone() {
    let contract = ContractMap::demo();
    assert_eq!(contract.zone_progress(), ZoneProgress { current_zone: 0, unlocked_zones: 0, total_zones: 1 });
    assert!(!contract.node_progress().iter().any(|entry| entry.status == NodeStatus::Sealed));
}

#[test]
fn a_generated_contract_ends_every_zone_with_one_boss() {
    let shape = ContractShape::default();
    for seed in 0..25 {
        let contract = generated(seed);
        let bosses: Vec<NodeProgress> = contract.node_progress().into_iter().filter(|entry| entry.is_boss).collect();
        assert_eq!(bosses.len(), shape.zone_count, "seed {seed} should field one boss per zone");
        for boss in &bosses {
            assert_eq!(
                contract.node_progress().iter().filter(|entry| x_of(entry) == x_of(boss)).count(),
                1,
                "seed {seed}: the boss at zone {} shares its column",
                boss.zone
            );
        }
        let mut zones: Vec<usize> = bosses.iter().map(|boss| boss.zone).collect();
        zones.sort_unstable();
        assert_eq!(zones, (0..shape.zone_count).collect::<Vec<_>>());
        assert!(bosses.iter().any(|boss| boss.is_target && boss.zone == shape.zone_count - 1));
    }
}

#[test]
fn walking_a_generated_contract_unlocks_each_zone_in_turn() {
    let shape = ContractShape::default();
    for seed in 0..10 {
        let mut contract = generated(seed);
        let mut bosses_beaten = 0;
        loop {
            let options = contract.selectable_encounters();
            if options.is_empty() {
                break;
            }
            let chosen = options[0].id();
            let was_boss = options[0].encounter_type().is_boss();
            let unlocked_before = contract.zone_progress().unlocked_zones;
            contract.select_encounter(chosen).expect("selectable");
            contract.complete_current_encounter().expect("active");
            let unlocked_after = contract.zone_progress().unlocked_zones;
            if was_boss {
                bosses_beaten += 1;
                assert_eq!(unlocked_after, unlocked_before + 1, "seed {seed}: beating a boss opens the next zone");
            } else {
                assert_eq!(unlocked_after, unlocked_before, "seed {seed}: only a boss opens a zone");
            }
            let zones = contract.node_zones();
            for option in contract.selectable_encounters() {
                let zone = zones[option.id() as usize];
                assert!(zone <= unlocked_after, "seed {seed}: node {} in zone {zone} was offered too early", option.id());
            }
        }
        assert_eq!(bosses_beaten, shape.zone_count, "seed {seed}: a full run goes through every zone's boss");
    }
}

#[test]
fn a_generated_contract_locks_everything_it_can_no_longer_reach() {
    let mut contract = generated(4);
    let first = contract.selectable_encounters()[0].id();
    contract.select_encounter(first).expect("selectable");
    contract.complete_current_encounter().expect("an encounter is active");
    let reachable = contract.reachable_from_current();
    let current = contract.current_encounter().id();
    for entry in contract.node_progress() {
        if entry.status == NodeStatus::Completed || entry.node_id == current {
            continue;
        }
        let should_be_locked = !reachable[entry.node_id as usize];
        assert_eq!(entry.status == NodeStatus::Locked, should_be_locked, "node {} is {:?}", entry.node_id, entry.status);
    }
}

#[test]
fn a_fresh_contract_locks_nothing() {
    let contract = ContractMap::demo();
    assert!(!contract.node_progress().iter().any(|entry| entry.status == NodeStatus::Locked));
}

#[test]
fn progress_counts_completed_encounters_and_excludes_the_entry_node() {
    let mut contract = ContractMap::demo();
    contract.select_encounter(1).expect("node 1 is reachable");
    contract.complete_current_encounter().expect("an encounter is active");
    assert_eq!(contract.progress().completed, 1);
    contract.select_encounter(3).expect("node 3 is reachable");
    contract.complete_current_encounter().expect("an encounter is active");
    let progress = contract.progress();
    assert_eq!(progress.completed, 2);
    assert_eq!(progress.total, 3);
}

#[test]
fn a_failed_encounter_does_not_count_as_completed() {
    let mut contract = ContractMap::demo();
    contract.select_encounter(1).expect("node 1 is reachable");
    contract.fail_current_encounter().expect("an encounter is active");
    assert_eq!(contract.progress().completed, 0);
    assert_ne!(status_of(&contract, 1), NodeStatus::Completed);
}

#[test]
fn the_entry_node_reads_as_behind_you_once_the_run_moves_on() {
    let mut contract = ContractMap::demo();
    assert_eq!(status_of(&contract, 0), NodeStatus::Current);
    contract.select_encounter(1).expect("node 1 is reachable");
    contract.complete_current_encounter().expect("an encounter is active");
    assert_eq!(status_of(&contract, 0), NodeStatus::Completed);
    assert_eq!(contract.progress().completed, 1);
}

#[test]
fn the_node_the_player_stands_on_is_marked_even_once_it_is_completed() {
    let mut contract = ContractMap::demo();
    assert!(progress_of(&contract, 0).is_current);
    contract.select_encounter(1).expect("node 1 is reachable");
    contract.complete_current_encounter().expect("an encounter is active");
    let standing_on = progress_of(&contract, 1);
    assert!(standing_on.is_current, "the player is standing on node 1");
    assert_eq!(standing_on.status, NodeStatus::Completed, "and has also cleared it");
    assert!(!progress_of(&contract, 0).is_current, "the entry is behind them now");
    assert_eq!(contract.node_progress().iter().filter(|entry| entry.is_current).count(), 1);
}

#[test]
fn every_node_appears_exactly_once_in_the_progress_view() {
    let contract = ContractMap::demo();
    let entries = contract.node_progress();
    let mut ids: Vec<NodeId> = entries.iter().map(|entry| entry.node_id).collect();
    ids.sort_unstable();
    assert_eq!(ids, vec![0, 1, 2, 3, 4, 5]);
}

#[test]
fn the_layout_runs_from_the_entry_on_the_left_to_the_target_on_the_right() {
    let contract = ContractMap::demo();
    let entry = progress_of(&contract, 0);
    let target = progress_of(&contract, 5);
    assert_eq!(x_of(&entry), 0.0, "the entry starts the layout");
    assert!(entry.is_entry);
    assert_eq!(x_of(&target), 1.0, "the target ends it");
    assert!(target.is_target);
    for entry in contract.node_progress() {
        assert!((0.0..=1.0).contains(&x_of(&entry)) && (0.0..=1.0).contains(&y_of(&entry)));
    }
}

#[test]
fn a_reconverging_node_sits_past_every_branch_that_leads_to_it() {
    let contract = ContractMap::demo();
    let target = progress_of(&contract, 5);
    for node_id in [1, 2, 3, 4] {
        let node = progress_of(&contract, node_id);
        assert!(x_of(&node) < x_of(&target), "node {node_id} should sit left of the target it leads to");
    }
}

#[test]
fn nodes_in_the_same_column_are_spread_apart() {
    let contract = ContractMap::demo();
    let first_branch = progress_of(&contract, 1);
    let second_branch = progress_of(&contract, 2);
    assert_eq!(x_of(&first_branch), x_of(&second_branch));
    assert_ne!(y_of(&first_branch), y_of(&second_branch));
}

#[test]
fn no_two_nodes_share_a_position() {
    let contract = ContractMap::demo();
    let mut seen: Vec<(u32, u32)> = Vec::new();
    for entry in contract.node_progress() {
        let point = ((x_of(&entry) * 1000.0) as u32, (y_of(&entry) * 1000.0) as u32);
        assert!(!seen.contains(&point), "node {} overlaps another node at {point:?}", entry.node_id);
        seen.push(point);
    }
}

#[test]
fn every_connection_is_carried_through_for_drawing() {
    let contract = ContractMap::demo();
    let entry = progress_of(&contract, 0);
    assert_eq!(entry.connections, vec![1, 2]);
    let target = progress_of(&contract, 5);
    assert!(target.connections.is_empty(), "nothing leads on from the target");
    let converging = progress_of(&contract, 3);
    assert_eq!(converging.connections, vec![5]);
}

#[test]
fn the_layout_does_not_move_as_the_run_progresses() {
    let mut contract = ContractMap::demo();
    let before: Vec<(NodeId, u32, u32)> = contract
        .node_progress()
        .into_iter()
        .map(|e| (e.node_id, (x_of(&e) * 1000.0) as u32, (y_of(&e) * 1000.0) as u32))
        .collect();
    contract.select_encounter(1).expect("node 1 is reachable");
    contract.complete_current_encounter().expect("an encounter is active");
    let after: Vec<(NodeId, u32, u32)> = contract
        .node_progress()
        .into_iter()
        .map(|e| (e.node_id, (x_of(&e) * 1000.0) as u32, (y_of(&e) * 1000.0) as u32))
        .collect();
    assert_eq!(before, after, "nodes must not jump around mid-run");
}

#[test]
fn a_generated_contract_is_as_long_as_it_was_asked_to_be() {
    for seed in 0..25 {
        let contract = generated(seed);
        let depth = contract.node_depths().iter().copied().max().unwrap_or(0);
        assert_eq!(depth + 1, ContractShape::default().length(), "seed {seed} produced a contract of the wrong length");
    }
}

#[test]
fn every_route_through_a_generated_contract_reaches_the_target() {
    for seed in 0..25 {
        let mut contract = generated(seed);
        let mut steps = 0;
        loop {
            let options = contract.selectable_encounters();
            if options.is_empty() {
                break;
            }
            let chosen = options[0].id();
            contract.select_encounter(chosen).expect("an offered encounter must be selectable");
            contract.complete_current_encounter().expect("an encounter is active");
            steps += 1;
            assert!(steps < 50, "seed {seed} never reached the target");
        }
        let ended_on = contract.current_encounter();
        assert!(ended_on.next_nodes().is_empty(), "seed {seed} stopped at node {} without reaching a target", ended_on.id());
        assert_eq!(steps + 1, ContractShape::default().length(), "seed {seed} traversed the wrong number of encounters");
    }
}

#[test]
fn walking_a_generated_contract_to_the_end_completes_its_progress() {
    let mut contract = generated(3);
    loop {
        let options = contract.selectable_encounters();
        if options.is_empty() {
            break;
        }
        let chosen = options[0].id();
        contract.select_encounter(chosen).expect("selectable");
        contract.complete_current_encounter().expect("active");
    }
    let progress = contract.progress();
    assert_eq!(progress.completed, progress.total);
    assert_eq!(progress.total, ContractShape::default().length() - 1);
}

#[test]
fn a_generated_contract_has_one_entry_and_one_target() {
    for seed in 0..25 {
        let contract = generated(seed);
        let entries = contract.node_progress().into_iter().filter(|node| node.is_entry).count();
        assert_eq!(entries, 1, "seed {seed} has {entries} entries");
        let targets = contract.node_progress().into_iter().filter(|node| node.is_target).count();
        assert_eq!(targets, 1, "seed {seed} has {targets} targets");
    }
}

#[test]
fn no_generated_node_is_stranded() {
    for seed in 0..25 {
        let contract = generated(seed);
        let nodes = contract.node_progress();
        for node in &nodes {
            if node.connections.is_empty() {
                assert!(node.is_target, "seed {seed}: node {} is a dead end but is not the target", node.node_id);
            }
        }
        for node in &nodes {
            if node.is_entry {
                continue;
            }
            let has_way_in = nodes.iter().any(|other| other.connections.contains(&node.node_id));
            assert!(has_way_in, "seed {seed}: nothing leads to node {}", node.node_id);
        }
    }
}

#[test]
fn generating_offers_branches_to_choose_between() {
    let contract = generated(1);
    let branch_points = contract.node_progress().iter().filter(|node| node.connections.len() > 1).count();
    assert!(branch_points > 0, "a contract with no branches is a corridor, not a map");
}

#[test]
fn the_same_seed_generates_the_same_contract() {
    assert_eq!(generated(7), generated(7));
}

#[test]
fn different_seeds_generate_different_contracts() {
    let first = generated(1);
    let second = generated(2);
    assert_ne!(first, second, "two runs should not lay out the same contract");
}

#[test]
fn error_messages_read_as_the_player_sees_them() {
    assert_eq!(ContractMapError::EmptyMap.message(), "the contract map contains no encounters");
    assert_eq!(ContractMapError::DuplicateNode(4).message(), "encounter 4 appears more than once");
    assert_eq!(
        ContractMapError::DuplicateConnection { from: 0, to: 12 }.message(),
        "encounter 0 links to encounter 12 more than once"
    );
    assert_eq!(ContractMapError::UnknownStartNode(7).message(), "starting encounter 7 does not exist");
    assert_eq!(
        ContractMapError::UnknownConnection { from: 3, to: 99 }.message(),
        "encounter 3 leads to missing encounter 99"
    );
    assert_eq!(ContractMapError::CyclicGraph.message(), "the contract map contains a cycle");
    assert_eq!(
        ContractMapError::EncounterAlreadyInProgress(1).message(),
        "encounter 1 is already in progress; another route cannot be chosen"
    );
    assert_eq!(ContractMapError::NoEncounterInProgress.message(), "there is no active map encounter");
    assert_eq!(
        ContractMapError::EncounterNotReachable { from: 3, requested: 2 }.message(),
        "encounter 2 is unavailable from encounter 3"
    );
    assert_eq!(
        ContractMapError::ZoneSealed { requested: 10, zone: 1 }.message(),
        "encounter 10 is in zone 2 and stays sealed until this zone's boss is beaten"
    );
}

#[test]
fn authored_contracts_are_refused_in_order_of_checking() {
    assert_eq!(ContractMap::new(Vec::new(), 0), Err(ContractMapError::EmptyMap));
    assert_eq!(
        ContractMap::new(
            vec![EncounterNode::new(0, EncounterType::Entry, vec![]), EncounterNode::new(0, EncounterType::Combat, vec![])],
            0
        ),
        Err(ContractMapError::DuplicateNode(0))
    );
    assert_eq!(
        ContractMap::new(vec![EncounterNode::new(0, EncounterType::Entry, vec![])], 5),
        Err(ContractMapError::UnknownStartNode(5))
    );
    let mut contract = branching_map();
    assert_eq!(contract.complete_current_encounter(), Err(ContractMapError::NoEncounterInProgress));
    assert_eq!(contract.fail_current_encounter(), Err(ContractMapError::NoEncounterInProgress));
}

#[test]
fn the_demo_contracts_are_as_authored() {
    let demo = ContractMap::demo();
    assert_eq!(demo.node_depths(), vec![0, 1, 1, 2, 2, 3]);
    assert_eq!(demo.node_zones(), vec![0, 0, 0, 0, 0, 0]);
    let zoned = ContractMap::demo_zoned();
    assert_eq!(zoned.node_depths(), vec![0, 1, 1, 2, 3, 3, 4]);
    assert_eq!(zoned.node_zones(), vec![0, 0, 0, 0, 1, 1, 1]);
    assert_eq!(EncounterType::Boss.as_str(), "boss");
    assert_eq!(NodeStatus::Sealed.as_str(), "sealed");
}

#[test]
fn a_generated_contract_is_numbered_column_by_column() {
    let shape = ContractShape::default();
    assert_eq!(shape.length(), 10);
    let contract = generated(5);
    let depths = contract.node_depths();
    for window in depths.windows(2) {
        assert!(window[0] <= window[1], "ids run column by column");
    }
    let entries = contract.node_progress();
    for entry in &entries {
        for next in &entry.connections {
            assert_eq!(depths[*next as usize], entry.depth + 1, "links only run to the next column");
        }
    }
}

#[test]
fn progress_never_counts_the_node_the_run_starts_from() {
    let mut contract = ContractMap::new(
        vec![
            EncounterNode::new(0, EncounterType::Combat, vec![1]),
            EncounterNode::new(1, EncounterType::Combat, vec![]),
        ],
        0,
    )
    .unwrap();
    contract.select_encounter(1).unwrap();
    contract.complete_current_encounter().unwrap();
    assert_eq!(contract.progress(), ContractProgress { completed: 1, total: 1 });
}

#[test]
fn a_boss_no_route_reaches_closes_no_zone() {
    let contract = ContractMap::new(
        vec![
            EncounterNode::new(0, EncounterType::Entry, vec![1]),
            EncounterNode::new(1, EncounterType::Combat, vec![]),
            EncounterNode::new(2, EncounterType::Boss, vec![]),
        ],
        0,
    )
    .unwrap();
    assert_eq!(selectable_ids(&contract), vec![1]);
    let selection = contract.encounter_option(1).unwrap();
    assert_eq!(selection.zone, 0);
    assert_eq!(contract.zone_progress().total_zones, 1);
    assert_eq!(status_of(&contract, 1), NodeStatus::Available);
}
