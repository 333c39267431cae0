//! Contract lifecycle: whether the player is in the hub, inside an
//! encounter, or caught, and the moves between them. A move that is not
//! allowed is refused and changes nothing.

use vstd::prelude::*;
use crate::text::{same_text, trim_text, trimmed};

verus! {

#[derive(Clone, Copy, Debug, PartialEq, Eq, Structural)]
pub enum ContractPhase {
    Hub,
    EncounterActive,
    Caught,
}

pub open spec fn phase_text(phase: ContractPhase) -> Seq<char> {
    match phase {
        ContractPhase::Hub => "hub"@,
        ContractPhase::EncounterActive => "encounter_active"@,
        ContractPhase::Caught => "caught"@,
    }
}

impl ContractPhase {
    pub fn as_str(self) -> (name: &'static str)
        ensures
            name@ == phase_text(self),
    {
        match self {
            ContractPhase::Hub => "hub",
            ContractPhase::EncounterActive => "encounter_active",
            ContractPhase::Caught => "caught",
        }
    }
}

#[derive(Clone, Copy, Debug, PartialEq, Eq, Structural)]
pub enum EncounterType {
    Combat,
    Event,
    Shop,
    Elite,
    /// The system guarding the end of a zone; played on the combat screen.
    Boss,
}

pub open spec fn encounter_text(encounter_type: EncounterType) -> Seq<char> {
    match encounter_type {
        EncounterType::Combat => "combat"@,
        EncounterType::Event => "event"@,
        EncounterType::Shop => "shop"@,
        EncounterType::Elite => "elite"@,
        EncounterType::Boss => "boss"@,
    }
}

/// The encounter type `value` names, if it names one.
pub open spec fn parsed_encounter(value: Seq<char>) -> Option<EncounterType> {
    if value == "combat"@ {
        Some(EncounterType::Combat)
    } else if value == "event"@ {
        Some(EncounterType::Event)
    } else if value == "shop"@ {
        Some(EncounterType::Shop)
    } else if value == "elite"@ {
        Some(EncounterType::Elite)
    } else if value == "boss"@ {
        Some(EncounterType::Boss)
    } else {
        None
    }
}

/// The type an encounter is recorded as is the one its name gives: reading
/// the name a type prints as gives that type back, and any name that reads
/// as a type is exactly the name that type prints as.
pub proof fn law_an_encounter_type_reads_back_as_itself(encounter_type: EncounterType, value: Seq<char>)
    ensures
        parsed_encounter(encounter_text(encounter_type)) == Some(encounter_type),
        parsed_encounter(value) matches Some(parsed) ==> encounter_text(parsed) == value,
{
    reveal_strlit("combat");
    reveal_strlit("event");
    reveal_strlit("shop");
    reveal_strlit("elite");
    reveal_strlit("boss");
    assert("combat"@.len() == 6 && "event"@.len() == 5 && "shop"@.len() == 4 && "elite"@.len() == 5 && "boss"@.len() == 4);
    assert("event"@[1] != "elite"@[1]);
    assert("shop"@[0] != "boss"@[0]);
}

impl EncounterType {
    pub fn as_str(self) -> (name: &'static str)
        ensures
            name@ == encounter_text(self),
    {
        match self {
            EncounterType::Combat => "combat",
            EncounterType::Event => "event",
            EncounterType::Shop => "shop",
            EncounterType::Elite => "elite",
            EncounterType::Boss => "boss",
        }
    }

    fn parse(value: &str) -> (parsed: Result<Self, RunStateError>)
        ensures
            match parsed {
                Ok(encounter_type) => parsed_encounter(value@) == Some(encounter_type),
                Err(error) => parsed_encounter(value@) is None && (error matches RunStateError::UnknownEncounterType(
                    name,
                ) && name@ == value@),
            },
    {
        if same_text(value, "combat") {
            Ok(EncounterType::Combat)
        } else if same_text(value, "event") {
            Ok(EncounterType::Event)
        } else if same_text(value, "shop") {
            Ok(EncounterType::Shop)
        } else if same_text(value, "elite") {
            Ok(EncounterType::Elite)
        } else if same_text(value, "boss") {
            Ok(EncounterType::Boss)
        } else {
            Err(RunStateError::UnknownEncounterType(String::from_str(value)))
        }
    }
}

#[derive(Clone, Debug, PartialEq, Eq)]
pub struct ActiveEncounter {
    id: String,
    encounter_type: EncounterType,
}

impl ActiveEncounter {
    pub closed spec fn spec_id(&self) -> Seq<char> {
        self.id@
    }

    pub closed spec fn spec_encounter_type(&self) -> EncounterType {
        self.encounter_type
    }

    pub fn id(&self) -> (id: &str)
        ensures
            id@ == self.spec_id(),
    {
        self.id.as_str()
    }

    pub fn encounter_type(&self) -> (encounter_type: EncounterType)
        ensures
            encounter_type == self.spec_encounter_type(),
    {
        self.encounter_type
    }
}

#[derive(Clone, Debug, PartialEq, Eq)]
pub enum RunStateError {
    InvalidTransition { action: &'static str, phase: ContractPhase },
    EmptyEncounterId,
    UnknownEncounterType(String),
}

pub open spec fn run_state_error_message(error: RunStateError) -> Seq<char> {
    match error {
        RunStateError::InvalidTransition { action, phase } => "cannot "@ + action@ + " while phase is "@
            + phase_text(phase),
        RunStateError::EmptyEncounterId => "encounter id must not be empty"@,
        RunStateError::UnknownEncounterType(name) => "unknown encounter type: "@ + name@,
    }
}

impl RunStateError {
    /// The message for this error, as the player reads it.
    pub fn message(&self) -> (text: String)
        ensures
            text@ == run_state_error_message(*self),
    {
        match self {
            RunStateError::InvalidTransition { action, phase } => {
                let mut text = String::from_str("cannot ");
                text.append(action);
                text.append(" while phase is ");
                text.append(phase.as_str());
                text
            },
            RunStateError::EmptyEncounterId => String::from_str("encounter id must not be empty"),
            RunStateError::UnknownEncounterType(name) => {
                let mut text = String::from_str("unknown encounter type: ");
                text.append(name.as_str());
                text
            },
        }
    }
}

/// The run as the contracts see it: its phase and, while there is one, the
/// encounter under way, by id and type.
pub struct RunStateView {
    pub phase: ContractPhase,
    pub active: Option<(Seq<char>, EncounterType)>,
}

/// The phase and the encounter agree: there is an encounter exactly while
/// the player is not in the hub.
pub open spec fn lifecycle_ok(view: RunStateView) -> bool {
    (view.phase == ContractPhase::Hub) == (view.active is None)
}

#[derive(Clone, Debug, PartialEq, Eq)]
pub struct RunState {
    phase: ContractPhase,
    active_encounter: Option<ActiveEncounter>,
}

impl View for RunState {
    type V = RunStateView;

    closed spec fn view(&self) -> RunStateView {
        RunStateView {
            phase: self.phase,
            active: match self.active_encounter {
                Some(encounter) => Some((encounter.id@, encounter.encounter_type)),
                None => None,
            },
        }
    }
}

impl Default for RunState {
    /// In the hub, with no encounter.
    fn default() -> (state: Self)
        ensures
            state@ == (RunStateView { phase: ContractPhase::Hub, active: None }),
    {
        RunState { phase: ContractPhase::Hub, active_encounter: None }
    }
}

/// `error` refuses a move named `action` made in `phase`.
pub open spec fn refused_in(error: RunStateError, action: Seq<char>, phase: ContractPhase) -> bool {
    error matches RunStateError::InvalidTransition { action: named, phase: found } && named@ == action && found
        == phase
}

impl RunState {
    pub fn new() -> (state: Self)
        ensures
            state@ == (RunStateView { phase: ContractPhase::Hub, active: None }),
    {
        Self::default()
    }

    pub fn phase(&self) -> (phase: ContractPhase)
        ensures
            phase == self@.phase,
    {
        self.phase
    }

    pub fn active_encounter(&self) -> (encounter: Option<&ActiveEncounter>)
        ensures
            match encounter {
                Some(e) => self@.active == Some((e.spec_id(), e.spec_encounter_type())),
                None => self@.active is None,
            },
    {
        match &self.active_encounter {
            Some(encounter) => Some(encounter),
            None => None,
        }
    }

    /// Starts the encounter `encounter_id`, of type `encounter_type`, from
    /// the hub. The id is kept without its surrounding whitespace and must
    /// not be empty; the type must be one of the four the game knows.
    pub fn start_encounter(&mut self, encounter_id: &str, encounter_type: &str) -> (result: Result<(), RunStateError>)
        ensures
            old(self)@.phase != ContractPhase::Hub ==> (result matches Err(error) && refused_in(
                error,
                "start encounter"@,
                old(self)@.phase,
            )),
            old(self)@.phase == ContractPhase::Hub && trimmed(encounter_id@).len() == 0 ==> result
                == Err::<(), RunStateError>(RunStateError::EmptyEncounterId),
            old(self)@.phase == ContractPhase::Hub && trimmed(encounter_id@).len() > 0 && parsed_encounter(
                encounter_type@,
            ) is None ==> (result matches Err(error) && (error matches RunStateError::UnknownEncounterType(name)
                && name@ == encounter_type@)),
            result is Err ==> final(self)@ == old(self)@,
            result is Ok <==> (old(self)@.phase == ContractPhase::Hub && trimmed(encounter_id@).len() > 0
                && parsed_encounter(encounter_type@) is Some),
            result is Ok ==> final(self)@ == (RunStateView {
                phase: ContractPhase::EncounterActive,
                active: Some((trimmed(encounter_id@), parsed_encounter(encounter_type@)->0)),
            }),
            result is Ok ==> encounter_text((final(self)@.active->0).1) == encounter_type@,
    {
        proof {
            law_an_encounter_type_reads_back_as_itself(EncounterType::Combat, encounter_type@);
        }
        match self.require_phase("start encounter", ContractPhase::Hub) {
            Ok(()) => {},
            Err(error) => {
                return Err(error);
            },
        }
        let encounter_id = trim_text(encounter_id);
        if encounter_id.unicode_len() == 0 {
            return Err(RunStateError::EmptyEncounterId);
        }
        let encounter_type = match EncounterType::parse(encounter_type) {
            Ok(parsed) => parsed,
            Err(error) => {
                return Err(error);
            },
        };
        self.phase = ContractPhase::EncounterActive;
        self.active_encounter = Some(ActiveEncounter { id: String::from_str(encounter_id), encounter_type });
        Ok(())
    }

    /// Refuses a move named `action` unless the run is in `required`.
    fn require_phase(&self, action: &'static str, required: ContractPhase) -> (result: Result<(), RunStateError>)
        ensures
            result is Ok <==> self@.phase == required,
            result matches Err(error) ==> refused_in(error, action@, self@.phase),
    {
        if self.phase == required {
            Ok(())
        } else {
            Err(RunStateError::InvalidTransition { action, phase: self.phase })
        }
    }

    /// Ends the encounter under way and goes back to the hub.
    pub fn complete_encounter(&mut self) -> (result: Result<(), RunStateError>)
        ensures
            result is Ok <==> old(self)@.phase == ContractPhase::EncounterActive,
            result is Ok ==> final(self)@ == (RunStateView { phase: ContractPhase::Hub, active: None }),
            result matches Err(error) ==> refused_in(error, "complete encounter"@, old(self)@.phase) && final(self)@
                == old(self)@,
    {
        match self.require_phase("complete encounter", ContractPhase::EncounterActive) {
            Ok(()) => {},
            Err(error) => {
                return Err(error);
            },
        }
        self.phase = ContractPhase::Hub;
        self.active_encounter = None;
        Ok(())
    }

    /// The player was caught during the encounter under way; the encounter
    /// is kept until the capture is dealt with.
    pub fn report_caught(&mut self) -> (result: Result<(), RunStateError>)
        ensures
            result is Ok <==> old(self)@.phase == ContractPhase::EncounterActive,
            result is Ok ==> final(self)@ == (RunStateView { phase: ContractPhase::Caught, active: old(self)@.active }),
            result matches Err(error) ==> refused_in(error, "report caught"@, old(self)@.phase) && final(self)@
                == old(self)@,
    {
        match self.require_phase("report caught", ContractPhase::EncounterActive) {
            Ok(()) => {},
            Err(error) => {
                return Err(error);
            },
        }
        self.phase = ContractPhase::Caught;
        Ok(())
    }

    /// Deals with a capture: back to the hub, the encounter cleared.
    pub fn finish_caught(&mut self) -> (result: Result<(), RunStateError>)
        ensures
            result is Ok <==> old(self)@.phase == ContractPhase::Caught,
            result is Ok ==> final(self)@ == (RunStateView { phase: ContractPhase::Hub, active: None }),
            result matches Err(error) ==> refused_in(error, "finish caught"@, old(self)@.phase) && final(self)@
                == old(self)@,
    {
        match self.require_phase("finish caught", ContractPhase::Caught) {
            Ok(()) => {},
            Err(error) => {
                return Err(error);
            },
        }
        self.phase = ContractPhase::Hub;
        self.active_encounter = None;
        Ok(())
    }
}

/// A run starts in a sound state, and every move, allowed or refused, leaves
/// it in one: the player holds an encounter exactly while away from the hub.
pub proof fn law_every_move_keeps_the_lifecycle(before: RunStateView, id: Seq<char>, encounter_type: EncounterType)
    requires
        lifecycle_ok(before),
    ensures
        lifecycle_ok(RunStateView { phase: ContractPhase::Hub, active: None }),
        before.phase == ContractPhase::Hub ==> lifecycle_ok(
            RunStateView { phase: ContractPhase::EncounterActive, active: Some((id, encounter_type)) },
        ),
        before.phase == ContractPhase::EncounterActive ==> lifecycle_ok(
            RunStateView { phase: ContractPhase::Caught, active: before.active },
        ),
{
}

} // verus!
