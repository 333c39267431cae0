//! Player-facing text for map nodes: the marker each node carries and the key
//! that explains every marker.

use vstd::prelude::*;
use crate::contract_map::{ContractView, EncounterType, NodeId, NodeStatus, still_reachable};
use crate::text::{lemma_already_trimmed, trimmed};

verus! {

/// How one encounter type is presented on the map and in the key.
#[derive(Clone, Copy, Debug, PartialEq, Eq)]
pub struct EncounterTypeText {
    /// Short marker shown on the node itself.
    pub marker: &'static str,
    /// Name of the encounter type.
    pub name: &'static str,
    /// What the player should expect from it.
    pub description: &'static str,
}

pub open spec fn encounter_marker(encounter_type: EncounterType) -> Seq<char> {
    match encounter_type {
        EncounterType::Entry => "[^]"@,
        EncounterType::Combat => "[C]"@,
        EncounterType::Event => "[E]"@,
        EncounterType::Shop => "[$]"@,
        EncounterType::Elite => "[!]"@,
        EncounterType::Boss => "[#]"@,
    }
}

pub open spec fn encounter_name(encounter_type: EncounterType) -> Seq<char> {
    match encounter_type {
        EncounterType::Entry => "Entry"@,
        EncounterType::Combat => "Combat"@,
        EncounterType::Event => "Event"@,
        EncounterType::Shop => "Shop"@,
        EncounterType::Elite => "Elite"@,
        EncounterType::Boss => "Boss"@,
    }
}

pub open spec fn encounter_description(encounter_type: EncounterType) -> Seq<char> {
    match encounter_type {
        EncounterType::Entry => "Where the contract begins. Nothing to fight here."@,
        EncounterType::Combat => "A security system to break through using your cards."@,
        EncounterType::Event => "A choice with its own risk and reward. No fighting."@,
        EncounterType::Shop => "Spend credits on new hardware between jobs."@,
        EncounterType::Elite => "A far tougher security system, with a better payout."@,
        EncounterType::Boss => "The system guarding this zone. Beat it to open the next one."@,
    }
}

pub fn encounter_type_text(encounter_type: EncounterType) -> (text: EncounterTypeText)
    ensures
        text.marker@ == encounter_marker(encounter_type),
        text.name@ == encounter_name(encounter_type),
        text.description@ == encounter_description(encounter_type),
{
    match encounter_type {
        // Not [>]: that belongs to the "you can go here next" status, and
        // one glyph cannot mean two things in the same key.
        EncounterType::Entry => EncounterTypeText {
            marker: "[^]",
            name: "Entry",
            description: "Where the contract begins. Nothing to fight here.",
        },
        EncounterType::Combat => EncounterTypeText {
            marker: "[C]",
            name: "Combat",
            description: "A security system to break through using your cards.",
        },
        EncounterType::Event => EncounterTypeText {
            marker: "[E]",
            name: "Event",
            description: "A choice with its own risk and reward. No fighting.",
        },
        EncounterType::Shop => EncounterTypeText {
            marker: "[$]",
            name: "Shop",
            description: "Spend credits on new hardware between jobs.",
        },
        EncounterType::Elite => EncounterTypeText {
            marker: "[!]",
            name: "Elite",
            description: "A far tougher security system, with a better payout.",
        },
        EncounterType::Boss => EncounterTypeText {
            marker: "[#]",
            name: "Boss",
            description: "The system guarding this zone. Beat it to open the next one.",
        },
    }
}

/// Every encounter type, for building the map key.
pub fn all_encounter_types() -> (types: [EncounterType; 6])
    ensures
        types@ == seq![
            EncounterType::Entry,
            EncounterType::Combat,
            EncounterType::Event,
            EncounterType::Shop,
            EncounterType::Elite,
            EncounterType::Boss,
        ],
{
    [
        EncounterType::Entry,
        EncounterType::Combat,
        EncounterType::Event,
        EncounterType::Shop,
        EncounterType::Elite,
        EncounterType::Boss,
    ]
}

/// How one node status is presented on the map and in the key.
#[derive(Clone, Copy, Debug, PartialEq, Eq)]
pub struct NodeStatusText {
    /// Short marker shown beside the node.
    pub marker: &'static str,
    /// What that marker means.
    pub description: &'static str,
}

pub open spec fn status_marker(status: NodeStatus) -> Seq<char> {
    match status {
        NodeStatus::Completed => "[x]"@,
        NodeStatus::Current => "[@]"@,
        NodeStatus::Available => "[>]"@,
        NodeStatus::Locked => "[-]"@,
        NodeStatus::Sealed => "[=]"@,
        NodeStatus::Upcoming => "[ ]"@,
    }
}

pub open spec fn status_description(status: NodeStatus) -> Seq<char> {
    match status {
        NodeStatus::Completed => "Completed."@,
        NodeStatus::Current => "Where you are now."@,
        NodeStatus::Available => "You can go here next."@,
        NodeStatus::Locked => "Locked out by an earlier choice."@,
        NodeStatus::Sealed => "Sealed until this zone's boss is beaten."@,
        NodeStatus::Upcoming => "Further ahead on the contract."@,
    }
}

pub fn node_status_text(status: NodeStatus) -> (text: NodeStatusText)
    ensures
        text.marker@ == status_marker(status),
        text.description@ == status_description(status),
{
    match status {
        NodeStatus::Completed => NodeStatusText { marker: "[x]", description: "Completed." },
        NodeStatus::Current => NodeStatusText { marker: "[@]", description: "Where you are now." },
        NodeStatus::Available => NodeStatusText { marker: "[>]", description: "You can go here next." },
        NodeStatus::Locked => NodeStatusText { marker: "[-]", description: "Locked out by an earlier choice." },
        NodeStatus::Sealed => NodeStatusText {
            marker: "[=]",
            description: "Sealed until this zone's boss is beaten.",
        },
        NodeStatus::Upcoming => NodeStatusText { marker: "[ ]", description: "Further ahead on the contract." },
    }
}

/// Every node status, for building the map key.
pub fn all_node_statuses() -> (statuses: [NodeStatus; 6])
    ensures
        statuses@ == seq![
            NodeStatus::Completed,
            NodeStatus::Current,
            NodeStatus::Available,
            NodeStatus::Locked,
            NodeStatus::Sealed,
            NodeStatus::Upcoming,
        ],
{
    [
        NodeStatus::Completed,
        NodeStatus::Current,
        NodeStatus::Available,
        NodeStatus::Locked,
        NodeStatus::Sealed,
        NodeStatus::Upcoming,
    ]
}

/// The key lists encounter markers and status markers together, so no marker
/// may stand for two things: two encounter types never share one, two
/// statuses never share one, and no encounter type shares one with a status.
pub proof fn law_no_marker_means_two_things(a: EncounterType, b: EncounterType, s: NodeStatus, t: NodeStatus)
    ensures
        a != b ==> encounter_marker(a) != encounter_marker(b),
        s != t ==> status_marker(s) != status_marker(t),
        encounter_marker(a) != status_marker(s),
{
    reveal_strlit("[^]");
    reveal_strlit("[C]");
    reveal_strlit("[E]");
    reveal_strlit("[$]");
    reveal_strlit("[!]");
    reveal_strlit("[#]");
    reveal_strlit("[x]");
    reveal_strlit("[@]");
    reveal_strlit("[>]");
    reveal_strlit("[-]");
    reveal_strlit("[=]");
    reveal_strlit("[ ]");
    assert(encounter_marker(a)[1] != encounter_marker(b)[1] || a == b);
    assert(status_marker(s)[1] != status_marker(t)[1] || s == t);
    assert(encounter_marker(a)[1] != status_marker(s)[1]);
}

/// Every marker and every description in the key says something: none is
/// blank or has whitespace to trim around it, and each encounter type's
/// description says more than its name.
pub proof fn law_every_marker_is_explained(e: EncounterType, s: NodeStatus)
    ensures
        encounter_marker(e).len() > 0,
        encounter_name(e).len() > 0,
        encounter_description(e).len() > encounter_name(e).len(),
        status_marker(s).len() > 0,
        status_description(s).len() > 0,
        trimmed(encounter_marker(e)) == encounter_marker(e),
        trimmed(encounter_name(e)) == encounter_name(e),
        trimmed(encounter_description(e)) == encounter_description(e),
        trimmed(status_marker(s)) == status_marker(s),
        trimmed(status_description(s)) == status_description(s),
{
    reveal_strlit("[^]");
    reveal_strlit("[C]");
    reveal_strlit("[E]");
    reveal_strlit("[$]");
    reveal_strlit("[!]");
    reveal_strlit("[#]");
    reveal_strlit("[x]");
    reveal_strlit("[@]");
    reveal_strlit("[>]");
    reveal_strlit("[-]");
    reveal_strlit("[=]");
    reveal_strlit("[ ]");
    reveal_strlit("Entry");
    reveal_strlit("Combat");
    reveal_strlit("Event");
    reveal_strlit("Shop");
    reveal_strlit("Elite");
    reveal_strlit("Boss");
    reveal_strlit("Where the contract begins. Nothing to fight here.");
    reveal_strlit("A security system to break through using your cards.");
    reveal_strlit("A choice with its own risk and reward. No fighting.");
    reveal_strlit("Spend credits on new hardware between jobs.");
    reveal_strlit("A far tougher security system, with a better payout.");
    reveal_strlit("The system guarding this zone. Beat it to open the next one.");
    reveal_strlit("Completed.");
    reveal_strlit("Where you are now.");
    reveal_strlit("You can go here next.");
    reveal_strlit("Locked out by an earlier choice.");
    reveal_strlit("Sealed until this zone's boss is beaten.");
    reveal_strlit("Further ahead on the contract.");
    lemma_already_trimmed(encounter_marker(e));
    lemma_already_trimmed(encounter_name(e));
    lemma_already_trimmed(encounter_description(e));
    lemma_already_trimmed(status_marker(s));
    lemma_already_trimmed(status_description(s));
}

/// The key explains each status by what it means for the node showing it:
/// a node marked as one the player can go to next is on offer, one marked
/// as further ahead can still be reached but is not on offer yet, one marked
/// locked out can no longer be reached, one marked sealed waits on a boss,
/// and so on. Each status carries its own marker and its own explanation.
pub proof fn law_the_key_says_what_each_status_means(v: ContractView, id: NodeId)
    ensures
        ({
            let status = v.status(id);
            &&& status == NodeStatus::Completed ==> v.completed.contains(id) && status_marker(status) == "[x]"@
                && status_description(status) == "Completed."@
            &&& status == NodeStatus::Current ==> id == v.current && !v.completed.contains(id) && status_marker(status)
                == "[@]"@ && status_description(status) == "Where you are now."@
            &&& status == NodeStatus::Available ==> v.selectable().contains(id) && status_marker(status) == "[>]"@
                && status_description(status) == "You can go here next."@
            &&& status == NodeStatus::Locked ==> !still_reachable(v, id) && status_marker(status) == "[-]"@
                && status_description(status) == "Locked out by an earlier choice."@
            &&& status == NodeStatus::Sealed ==> still_reachable(v, id) && v.zone(id) > v.unlocked_zones
                && status_marker(status) == "[=]"@ && status_description(status)
                == "Sealed until this zone's boss is beaten."@
            &&& status == NodeStatus::Upcoming ==> still_reachable(v, id) && !v.selectable().contains(id)
                && status_marker(status) == "[ ]"@ && status_description(status) == "Further ahead on the contract."@
        }),
{
}

} // verus!
