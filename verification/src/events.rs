//! Random event encounters: an event offers at least two choices, each
//! stating its outcome or risk before the player commits, and a confirmed
//! choice resolves into an effect the caller applies to the run.

use vstd::prelude::*;
use rand::rngs::StdRng;
use crate::player::Wallet;
use crate::random::random_usize_in;
use crate::text::{lemma_already_trimmed, trimmed};

verus! {

/// An effect as the contracts see it.
pub struct EffectView {
    pub credits: int,
    pub upgrade: Option<Seq<char>>,
    pub summary: Seq<char>,
}

/// What resolving a choice does to the run.
#[derive(Clone, Debug, PartialEq, Eq)]
pub struct EventEffect {
    /// Credits gained (positive) or lost (negative).
    pub credits: i64,
    /// Upgrade earned for this contract, if any.
    pub upgrade: Option<String>,
    /// Player-facing description of what actually happened.
    pub summary: String,
}

impl View for EventEffect {
    type V = EffectView;

    open spec fn view(&self) -> EffectView {
        EffectView {
            credits: self.credits as int,
            upgrade: match self.upgrade {
                Some(name) => Some(name@),
                None => None,
            },
            summary: self.summary@,
        }
    }
}

pub open spec fn effect_view(credits: int, upgrade: Option<Seq<char>>, summary: Seq<char>) -> EffectView {
    EffectView { credits, upgrade, summary }
}

impl EventEffect {
    pub fn new(credits: i64, upgrade: Option<&str>, summary: &str) -> (effect: Self)
        ensures
            effect@ == effect_view(
                credits as int,
                match upgrade {
                    Some(name) => Some(name@),
                    None => None,
                },
                summary@,
            ),
    {
        let upgrade = match upgrade {
            Some(name) => Some(String::from_str(name)),
            None => None,
        };
        EventEffect { credits, upgrade, summary: String::from_str(summary) }
    }

    /// A copy of this effect, field for field.
    pub fn duplicate(&self) -> (copy: Self)
        ensures
            copy == *self,
    {
        let upgrade = match &self.upgrade {
            Some(name) => Some(name.clone()),
            None => None,
        };
        EventEffect { credits: self.credits, upgrade, summary: self.summary.clone() }
    }
}

pub enum OutcomeView {
    Certain(EffectView),
    Gamble { success_chance: u8, success: EffectView, failure: EffectView },
}

/// How a choice resolves once confirmed.
#[derive(Clone, Debug, PartialEq, Eq)]
pub enum EventOutcome {
    /// Always resolves the same way.
    Certain(EventEffect),
    /// A gamble. `success_chance` is a percentage in 1..=99, so both results
    /// stay genuinely reachable and the choice carries real risk.
    Gamble { success_chance: u8, success: EventEffect, failure: EventEffect },
}

impl View for EventOutcome {
    type V = OutcomeView;

    open spec fn view(&self) -> OutcomeView {
        match self {
            EventOutcome::Certain(effect) => OutcomeView::Certain(effect@),
            EventOutcome::Gamble { success_chance, success, failure } => OutcomeView::Gamble {
                success_chance: *success_chance,
                success: success@,
                failure: failure@,
            },
        }
    }
}

/// What an outcome comes to when the percentile roll is `roll`: a gamble
/// succeeds when the roll is at most its chance.
pub open spec fn outcome_for_roll(outcome: EventOutcome, roll: int) -> EventEffect {
    match outcome {
        EventOutcome::Certain(effect) => effect,
        EventOutcome::Gamble { success_chance, success, failure } => if roll <= success_chance {
            success
        } else {
            failure
        },
    }
}

impl EventOutcome {
    /// The effect this outcome has when the percentile roll comes up `roll`.
    pub fn effect_for_roll(&self, roll: u8) -> (effect: EventEffect)
        ensures
            effect == outcome_for_roll(*self, roll as int),
    {
        match self {
            EventOutcome::Certain(effect) => effect.duplicate(),
            EventOutcome::Gamble { success_chance, success, failure } => {
                if roll <= *success_chance {
                    success.duplicate()
                } else {
                    failure.duplicate()
                }
            },
        }
    }
}

pub struct ChoiceView {
    pub label: Seq<char>,
    pub preview: Seq<char>,
    pub outcome: OutcomeView,
}

#[derive(Clone, Debug, PartialEq, Eq)]
pub struct EventChoice {
    /// Button text.
    pub label: String,
    /// Shown before committing so the player can weigh risk against reward.
    pub preview: String,
    pub outcome: EventOutcome,
}

impl View for EventChoice {
    type V = ChoiceView;

    open spec fn view(&self) -> ChoiceView {
        ChoiceView { label: self.label@, preview: self.preview@, outcome: self.outcome@ }
    }
}

impl EventChoice {
    pub fn certain(label: &str, preview: &str, effect: EventEffect) -> (choice: Self)
        ensures
            choice@ == (ChoiceView { label: label@, preview: preview@, outcome: OutcomeView::Certain(effect@) }),
    {
        EventChoice {
            label: String::from_str(label),
            preview: String::from_str(preview),
            outcome: EventOutcome::Certain(effect),
        }
    }

    pub fn gamble(label: &str, preview: &str, success_chance: u8, success: EventEffect, failure: EventEffect) -> (choice:
        Self)
        ensures
            choice@ == (ChoiceView {
                label: label@,
                preview: preview@,
                outcome: OutcomeView::Gamble { success_chance, success: success@, failure: failure@ },
            }),
    {
        EventChoice {
            label: String::from_str(label),
            preview: String::from_str(preview),
            outcome: EventOutcome::Gamble { success_chance, success, failure },
        }
    }
}

pub struct DefinitionView {
    pub id: Seq<char>,
    pub title: Seq<char>,
    pub description: Seq<char>,
    pub choices: Seq<ChoiceView>,
}

pub open spec fn choice_views(choices: Seq<EventChoice>) -> Seq<ChoiceView> {
    choices.map_values(|choice: EventChoice| choice@)
}

#[derive(Clone, Debug, PartialEq, Eq)]
pub struct EventDefinition {
    pub id: String,
    pub title: String,
    pub description: String,
    pub choices: Vec<EventChoice>,
}

impl View for EventDefinition {
    type V = DefinitionView;

    open spec fn view(&self) -> DefinitionView {
        DefinitionView {
            id: self.id@,
            title: self.title@,
            description: self.description@,
            choices: choice_views(self.choices@),
        }
    }
}

/// What resolving the choice at `index` comes to when the percentile roll
/// is `roll`: nothing for an index out of range.
pub open spec fn resolution(event: EventDefinition, index: int, roll: int) -> Option<EventEffect> {
    if 0 <= index < event.choices@.len() {
        Some(outcome_for_roll(event.choices@[index].outcome, roll))
    } else {
        None
    }
}

impl EventDefinition {
    /// Resolves the choice at `index` as if the percentile roll came up
    /// `roll`. Returns `None` for an out-of-range index.
    pub fn resolve_with_roll(&self, index: usize, roll: u8) -> (effect: Option<EventEffect>)
        ensures
            effect == resolution(*self, index as int, roll as int),
    {
        if index >= self.choices.len() {
            return None;
        }
        Some(self.choices[index].outcome.effect_for_roll(roll))
    }

    /// Resolves the choice at `index`, rolling 1 to 100 for it if it is a
    /// gamble. Returns `None` for an out-of-range index, so a bad call from
    /// the UI cannot silently apply somebody else's outcome.
    pub fn resolve(&self, index: usize, rng: &mut StdRng) -> (effect: Option<EventEffect>)
        ensures
            exists|roll: int| 1 <= roll <= 100 && effect == resolution(*self, index as int, roll),
            index < self.choices@.len() && self.choices@[index as int].outcome is Certain ==> effect == resolution(
                *self,
                index as int,
                1,
            ),
    {
        if index >= self.choices.len() {
            assert(resolution(*self, index as int, 1) is None);
            return None;
        }
        let roll = match &self.choices[index].outcome {
            EventOutcome::Certain(_) => 1,
            EventOutcome::Gamble { .. } => random_usize_in(rng, 1, 100) as u8,
        };
        let effect = self.resolve_with_roll(index, roll);
        assert(1 <= roll as int <= 100 && effect == resolution(*self, index as int, roll as int));
        effect
    }
}

pub open spec fn certain_view(label: Seq<char>, preview: Seq<char>, effect: EffectView) -> ChoiceView {
    ChoiceView { label, preview, outcome: OutcomeView::Certain(effect) }
}

pub open spec fn gamble_view(
    label: Seq<char>,
    preview: Seq<char>,
    success_chance: u8,
    success: EffectView,
    failure: EffectView,
) -> ChoiceView {
    ChoiceView { label, preview, outcome: OutcomeView::Gamble { success_chance, success, failure } }
}

/// Every event that can appear on a contract.
pub open spec fn catalogue() -> Seq<DefinitionView> {
    seq![
        DefinitionView {
            id: "unsecured_terminal"@,
            title: "Unsecured Terminal"@,
            description: "A maintenance terminal three floors down is still logged in. Someone will notice eventually."@,
            choices: seq![
                gamble_view(
                    "Siphon the credit cache"@,
                    "60% chance: gain 120 credits. Otherwise the transfer is flagged and costs you 80."@,
                    60,
                    effect_view(120, None, "The transfer clears before anyone looks twice. +120 credits."@),
                    effect_view(-80, None, "The transfer trips an audit flag and the clawback stings. -80 credits."@),
                ),
                certain_view(
                    "Wipe your traces and move on"@,
                    "Safe. Nothing gained, nothing lost."@,
                    effect_view(0, None, "You scrub the logs and slip away clean."@),
                ),
            ],
        },
        DefinitionView {
            id: "black_market_broker"@,
            title: "Black Market Broker"@,
            description: "A broker on a rooftop offers you an exploit kit. She does not do refunds."@,
            choices: seq![
                certain_view(
                    "Pay her asking price"@,
                    "Costs 100 credits. You gain the Exploit Kit upgrade."@,
                    effect_view(
                        -100,
                        Some("Exploit Kit"@),
                        "She hands over the kit without a word. -100 credits, Exploit Kit acquired."@,
                    ),
                ),
                gamble_view(
                    "Haggle"@,
                    "50% chance: the kit for only 40 credits. Otherwise she walks and you get nothing."@,
                    50,
                    effect_view(
                        -40,
                        Some("Exploit Kit"@),
                        "She laughs, then takes the lowball. -40 credits, Exploit Kit acquired."@,
                    ),
                    effect_view(0, None, "She pockets the kit and is gone down the fire escape."@),
                ),
                certain_view(
                    "Walk away"@,
                    "Safe. Nothing gained, nothing lost."@,
                    effect_view(0, None, "You decide the heat is not worth it."@),
                ),
            ],
        },
        DefinitionView {
            id: "abandoned_data_cache"@,
            title: "Abandoned Data Cache"@,
            description: "An encrypted cache nobody has claimed, humming quietly in a dead node."@,
            choices: seq![
                gamble_view(
                    "Crack the encryption"@,
                    "75% chance: gain 90 credits. Otherwise it self-wipes and the trace costs you 30."@,
                    75,
                    effect_view(90, None, "The cache cracks open. +90 credits."@),
                    effect_view(-30, None, "The cache self-wipes and fires a trace back at you. -30 credits."@),
                ),
                certain_view(
                    "Sell the location"@,
                    "Guaranteed 45 credits."@,
                    effect_view(45, None, "You sell the coordinates to a fixer. +45 credits."@),
                ),
            ],
        },
    ]
}

pub open spec fn definition_views(events: Seq<EventDefinition>) -> Seq<DefinitionView> {
    events.map_values(|event: EventDefinition| event@)
}

fn unsecured_terminal() -> (event: EventDefinition)
    ensures
        event@ == catalogue()[0],
{
    let mut choices: Vec<EventChoice> = Vec::new();
    choices.push(
        EventChoice::gamble(
            "Siphon the credit cache",
            "60% chance: gain 120 credits. Otherwise the transfer is flagged and costs you 80.",
            60,
            EventEffect::new(120, None, "The transfer clears before anyone looks twice. +120 credits."),
            EventEffect::new(-80, None, "The transfer trips an audit flag and the clawback stings. -80 credits."),
        ),
    );
    choices.push(
        EventChoice::certain(
            "Wipe your traces and move on",
            "Safe. Nothing gained, nothing lost.",
            EventEffect::new(0, None, "You scrub the logs and slip away clean."),
        ),
    );
    let event = EventDefinition {
        id: String::from_str("unsecured_terminal"),
        title: String::from_str("Unsecured Terminal"),
        description: String::from_str(
            "A maintenance terminal three floors down is still logged in. Someone will notice eventually.",
        ),
        choices,
    };
    assert(event@.choices =~= catalogue()[0].choices);
    event
}

fn black_market_broker() -> (event: EventDefinition)
    ensures
        event@ == catalogue()[1],
{
    let mut choices: Vec<EventChoice> = Vec::new();
    choices.push(
        EventChoice::certain(
            "Pay her asking price",
            "Costs 100 credits. You gain the Exploit Kit upgrade.",
            EventEffect::new(
                -100,
                Some("Exploit Kit"),
                "She hands over the kit without a word. -100 credits, Exploit Kit acquired.",
            ),
        ),
    );
    choices.push(
        EventChoice::gamble(
            "Haggle",
            "50% chance: the kit for only 40 credits. Otherwise she walks and you get nothing.",
            50,
            EventEffect::new(
                -40,
                Some("Exploit Kit"),
                "She laughs, then takes the lowball. -40 credits, Exploit Kit acquired.",
            ),
            EventEffect::new(0, None, "She pockets the kit and is gone down the fire escape."),
        ),
    );
    choices.push(
        EventChoice::certain(
            "Walk away",
            "Safe. Nothing gained, nothing lost.",
            EventEffect::new(0, None, "You decide the heat is not worth it."),
        ),
    );
    let event = EventDefinition {
        id: String::from_str("black_market_broker"),
        title: String::from_str("Black Market Broker"),
        description: String::from_str("A broker on a rooftop offers you an exploit kit. She does not do refunds."),
        choices,
    };
    assert(event@.choices =~= catalogue()[1].choices);
    event
}

fn abandoned_data_cache() -> (event: EventDefinition)
    ensures
        event@ == catalogue()[2],
{
    let mut choices: Vec<EventChoice> = Vec::new();
    choices.push(
        EventChoice::gamble(
            "Crack the encryption",
            "75% chance: gain 90 credits. Otherwise it self-wipes and the trace costs you 30.",
            75,
            EventEffect::new(90, None, "The cache cracks open. +90 credits."),
            EventEffect::new(-30, None, "The cache self-wipes and fires a trace back at you. -30 credits."),
        ),
    );
    choices.push(
        EventChoice::certain(
            "Sell the location",
            "Guaranteed 45 credits.",
            EventEffect::new(45, None, "You sell the coordinates to a fixer. +45 credits."),
        ),
    );
    let event = EventDefinition {
        id: String::from_str("abandoned_data_cache"),
        title: String::from_str("Abandoned Data Cache"),
        description: String::from_str("An encrypted cache nobody has claimed, humming quietly in a dead node."),
        choices,
    };
    assert(event@.choices =~= catalogue()[2].choices);
    event
}

/// Every event that can appear on a contract.
pub fn event_catalogue() -> (events: Vec<EventDefinition>)
    ensures
        definition_views(events@) == catalogue(),
{
    let mut events: Vec<EventDefinition> = Vec::new();
    events.push(unsecured_terminal());
    events.push(black_market_broker());
    events.push(abandoned_data_cache());
    assert(definition_views(events@) =~= catalogue());
    events
}

/// Picks one event at random for an event node.
pub fn random_event(rng: &mut StdRng) -> (event: EventDefinition)
    ensures
        exists|i: int| 0 <= i < catalogue().len() && event@ == catalogue()[i],
{
    let mut events = event_catalogue();
    assert(events@.len() == 3) by {
        assert(definition_views(events@).len() == catalogue().len());
    }
    let index = random_usize_in(rng, 0, events.len() - 1);
    let ghost views = definition_views(events@);
    assert(views[index as int] == events@[index as int]@);
    let event = events.swap_remove(index);
    event
}

/// Every event offers a real choice: at least two options, each with a
/// label and a preview of its outcome or risk, neither of them blank nor
/// with whitespace to trim around it.
pub proof fn law_every_event_offers_previewed_choices(i: int, c: int)
    requires
        0 <= i < catalogue().len(),
    ensures
        catalogue()[i].choices.len() >= 2,
        0 <= c < catalogue()[i].choices.len() ==> catalogue()[i].choices[c].label.len() > 0
            && catalogue()[i].choices[c].preview.len() > 0,
        0 <= c < catalogue()[i].choices.len() ==> trimmed(catalogue()[i].choices[c].label)
            == catalogue()[i].choices[c].label && trimmed(catalogue()[i].choices[c].preview)
            == catalogue()[i].choices[c].preview,
{
    reveal_strlit("Siphon the credit cache");
    reveal_strlit("60% chance: gain 120 credits. Otherwise the transfer is flagged and costs you 80.");
    reveal_strlit("Wipe your traces and move on");
    reveal_strlit("Safe. Nothing gained, nothing lost.");
    reveal_strlit("Pay her asking price");
    reveal_strlit("Costs 100 credits. You gain the Exploit Kit upgrade.");
    reveal_strlit("Haggle");
    reveal_strlit("50% chance: the kit for only 40 credits. Otherwise she walks and you get nothing.");
    reveal_strlit("Walk away");
    reveal_strlit("Crack the encryption");
    reveal_strlit("75% chance: gain 90 credits. Otherwise it self-wipes and the trace costs you 30.");
    reveal_strlit("Sell the location");
    reveal_strlit("Guaranteed 45 credits.");
    if 0 <= c < catalogue()[i].choices.len() {
        lemma_already_trimmed(catalogue()[i].choices[c].label);
        lemma_already_trimmed(catalogue()[i].choices[c].preview);
    }
}

/// A gamble in the catalogue can land either way: its chance is between 1
/// and 99 percent.
pub proof fn law_gambles_can_land_either_way(i: int, c: int)
    requires
        0 <= i < catalogue().len(),
        0 <= c < catalogue()[i].choices.len(),
    ensures
        catalogue()[i].choices[c].outcome matches OutcomeView::Gamble { success_chance, .. } ==> 1 <= success_chance
            <= 99,
{
}

/// No two events in the catalogue share an id.
pub proof fn law_event_ids_are_unique(i: int, j: int)
    requires
        0 <= i < j < catalogue().len(),
    ensures
        catalogue()[i].id != catalogue()[j].id,
{
    reveal_strlit("unsecured_terminal");
    reveal_strlit("black_market_broker");
    reveal_strlit("abandoned_data_cache");
    assert(catalogue()[0].id[0] != catalogue()[1].id[0]);
    assert(catalogue()[0].id[0] != catalogue()[2].id[0]);
    assert(catalogue()[1].id[0] != catalogue()[2].id[0]);
}

/// A roll at or under a gamble's chance wins it and a roll over it loses;
/// a certain choice comes out the same whatever the roll.
pub proof fn law_the_roll_decides_a_gamble(outcome: EventOutcome, roll: int, other: int)
    ensures
        outcome matches EventOutcome::Gamble { success_chance, success, failure } ==> (roll <= success_chance
            ==> outcome_for_roll(outcome, roll) == success) && (roll > success_chance ==> outcome_for_roll(
            outcome,
            roll,
        ) == failure),
        outcome is Certain ==> outcome_for_roll(outcome, roll) == outcome_for_roll(outcome, other),
{
}

/// Why confirming a choice on the event screen came to nothing.
#[derive(Clone, Copy, Debug, PartialEq, Eq, Structural)]
pub enum EventChoiceError {
    NoEvent,
    AlreadyResolved,
    InvalidIndex,
    UnavailableChoice,
}

pub open spec fn event_choice_message(error: EventChoiceError) -> Seq<char> {
    match error {
        EventChoiceError::NoEvent => "no event has been rolled yet"@,
        EventChoiceError::AlreadyResolved => "this event has already been resolved"@,
        EventChoiceError::InvalidIndex => "choice index is invalid"@,
        EventChoiceError::UnavailableChoice => "that choice is not available on this event"@,
    }
}

impl EventChoiceError {
    pub fn message(self) -> (text: &'static str)
        ensures
            text@ == event_choice_message(self),
    {
        match self {
            EventChoiceError::NoEvent => "no event has been rolled yet",
            EventChoiceError::AlreadyResolved => "this event has already been resolved",
            EventChoiceError::InvalidIndex => "choice index is invalid",
            EventChoiceError::UnavailableChoice => "that choice is not available on this event",
        }
    }
}

/// Confirms the choice at `index` on the event on screen, which resolves
/// once: nothing without an event, nothing a second time, nothing for a
/// negative or out-of-range index.
pub fn choose_on_event(event: Option<&EventDefinition>, resolved: bool, index: i64, rng: &mut StdRng) -> (result:
    Result<EventEffect, EventChoiceError>)
    ensures
        event is None ==> result == Err::<EventEffect, EventChoiceError>(EventChoiceError::NoEvent),
        event is Some && resolved ==> result == Err::<EventEffect, EventChoiceError>(EventChoiceError::AlreadyResolved),
        event is Some && !resolved && index < 0 ==> result == Err::<EventEffect, EventChoiceError>(
            EventChoiceError::InvalidIndex,
        ),
        event matches Some(e) && !resolved && index >= e.choices@.len() ==> result == Err::<
            EventEffect,
            EventChoiceError,
        >(EventChoiceError::UnavailableChoice),
        event is Some && !resolved && 0 <= index < event->0.choices@.len() ==> (result matches Ok(effect) && exists|
            roll: int,
        | 1 <= roll <= 100 && Some(effect) == resolution(*event->0, index as int, roll)),
{
    let event = match event {
        Some(event) => event,
        None => {
            return Err(EventChoiceError::NoEvent);
        },
    };
    if resolved {
        return Err(EventChoiceError::AlreadyResolved);
    }
    if index < 0 {
        return Err(EventChoiceError::InvalidIndex);
    }
    if index as u64 >= event.choices.len() as u64 {
        return Err(EventChoiceError::UnavailableChoice);
    }
    match event.resolve(index as usize, rng) {
        Some(effect) => Ok(effect),
        None => Err(EventChoiceError::UnavailableChoice),
    }
}

/// Applies an event's outcome to what the player carries: its credits, and
/// its upgrade if it has one.
pub fn apply_effect(wallet: &mut Wallet, effect: &EventEffect)
    requires
        i64::MIN <= old(wallet)@.money + effect.credits <= i64::MAX,
    ensures
        final(wallet)@.money == old(wallet)@.money + effect.credits,
        final(wallet)@.upgrades == match effect.upgrade {
            Some(name) => old(wallet)@.upgrades.push(name@),
            None => old(wallet)@.upgrades,
        },
{
    wallet.add_credits(effect.credits);
    match &effect.upgrade {
        Some(name) => wallet.add_upgrade(name.as_str()),
        None => {},
    }
}

} // verus!
