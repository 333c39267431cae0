use cyber_heist::contract_map::{EncounterType, NodeStatus};
use cyber_heist::encounter_text::{all_encounter_types, all_node_statuses, encounter_type_text, node_status_text};

#[test]
fn every_encounter_type_has_a_marker_name_and_description() {
    for encounter_type in all_encounter_types() {
        let text = encounter_type_text(encounter_type);
        assert!(!text.marker.trim().is_empty(), "{encounter_type:?} has no marker");
        assert!(!text.name.trim().is_empty(), "{encounter_type:?} has no name");
        assert!(text.description.trim().len() > text.name.trim().len());
    }
}

#[test]
fn encounter_type_markers_are_distinct() {
    let markers: Vec<&str> = all_encounter_types().into_iter().map(|t| encounter_type_text(t).marker).collect();
    let mut unique = markers.clone();
    unique.sort_unstable();
    unique.dedup();
    assert_eq!(unique.len(), markers.len(), "two encounter types share a marker: {markers:?}");
}

#[test]
fn every_node_status_has_a_marker_and_description() {
    for status in all_node_statuses() {
        let text = node_status_text(status);
        assert!(!text.marker.trim().is_empty(), "{status:?} has no marker");
        assert!(!text.description.trim().is_empty(), "{status:?} has no description");
    }
}

#[test]
fn node_status_markers_are_distinct() {
    let markers: Vec<&str> = all_node_statuses().into_iter().map(|s| node_status_text(s).marker).collect();
    let mut unique = markers.clone();
    unique.sort_unstable();
    unique.dedup();
    assert_eq!(unique.len(), markers.len(), "two node statuses share a marker: {markers:?}");
}

#[test]
fn no_marker_means_two_different_things() {
    let mut markers: Vec<(&str, String)> = Vec::new();
    for encounter_type in all_encounter_types() {
        let text = encounter_type_text(encounter_type);
        markers.push((text.marker, format!("encounter type {}", text.name)));
    }
    for status in all_node_statuses() {
        let text = node_status_text(status);
        markers.push((text.marker, format!("status {status:?}")));
    }
    for (index, (marker, owner)) in markers.iter().enumerate() {
        for (other_marker, other_owner) in markers.iter().skip(index + 1) {
            assert_ne!(marker, other_marker, "'{marker}' is used for both {owner} and {other_owner}");
        }
    }
}

#[test]
fn all_encounter_types_covers_every_variant() {
    for encounter_type in all_encounter_types() {
        match encounter_type {
            EncounterType::Entry
            | EncounterType::Combat
            | EncounterType::Event
            | EncounterType::Shop
            | EncounterType::Elite
            | EncounterType::Boss => {}
        }
    }
    assert_eq!(all_encounter_types().len(), 6);
}

#[test]
fn the_key_reads_as_authored() {
    assert_eq!(encounter_type_text(EncounterType::Entry).marker, "[^]");
    assert_eq!(encounter_type_text(EncounterType::Shop).name, "Shop");
    assert_eq!(node_status_text(NodeStatus::Available).marker, "[>]");
    assert_eq!(node_status_text(NodeStatus::Sealed).description, "Sealed until this zone's boss is beaten.");
}
