//! The turns of a combat encounter around the card plays: dealing a hand,
//! the security system's turn, and starting the next turn.

use vstd::prelude::*;
use rand::rngs::StdRng;
use crate::card_data::CardData;
use crate::deck::{Deck, DeckView, drawn_as};
use crate::noise_meter::{NoiseLevel, clamp_int};
use crate::sentry::{Sentry, SentryAction, SentryView, advanced, queued, sentry_valid};

verus! {

/// Takes up to `amount` energy off the turn under way, never below zero, and
/// reports how much actually went. A negative amount drains nothing: this is
/// not a way of handing energy out. A pool already below zero is only
/// brought back up to zero.
pub fn drain_energy(energy: &mut i32, amount: i32) -> (drained: i32)
    ensures
        *final(energy) == clamp_int(*old(energy) - (if amount < 0 { 0 } else { amount as int }), 0, i32::MAX as int),
        drained == *old(energy) - *final(energy),
        *old(energy) >= 0 ==> 0 <= drained <= *old(energy),
{
    let before = *energy;
    let amount = if amount < 0 { 0 } else { amount };
    let after = if before < 0 || amount > before { 0 } else { before - amount };
    *energy = after;
    before - after
}

/// Moves the previous hand to the discard pile, refills energy and deals a
/// fresh hand of `hand_size`.
pub fn deal_hand(
    hand: &mut Vec<CardData>,
    deck: &mut Deck,
    energy: &mut i32,
    max_energy: i32,
    hand_size: usize,
    rng: &mut StdRng,
)
    ensures
        *final(energy) == max_energy,
        drawn_as(
            DeckView { draw: old(deck)@.draw, discard: old(deck)@.discard + old(hand)@ },
            hand_size as nat,
            final(hand)@,
            final(deck)@,
        ),
{
    let mut previous: Vec<CardData> = Vec::new();
    core::mem::swap(hand, &mut previous);
    deck.discard(previous);
    *energy = max_energy;
    *hand = deck.draw_hand(hand_size, rng);
}

/// What the security system's turn came to.
#[derive(Debug, PartialEq, Eq)]
pub struct SecurityTurn {
    /// The action performed, if the sentry acted.
    pub action: Option<SentryAction>,
    /// Actual change to noise from the action.
    pub noise_added: i32,
    /// Health the sentry lost to its own corruption first.
    pub corruption_damage: i32,
    /// Corruption left on the sentry afterwards.
    pub corruption: i32,
    /// The meter reached its cap: the run has failed.
    pub run_failed: bool,
    /// The sentry is down.
    pub defeated: bool,
}

/// The sentry's turn: its corruption ticks first, then, if the encounter is
/// still live, the player is not yet detected and the sentry still stands,
/// it performs its queued action and the action's noise goes on the meter.
pub fn security_turn(sentry: &mut Sentry, noise: &mut NoiseLevel, encounter_live: bool) -> (turn: SecurityTurn)
    requires
        sentry_valid(old(sentry)@),
        old(sentry)@.corruption > 0 ==> old(sentry)@.max_health >= 0,
    ensures
        ({
            let ticked = if old(sentry)@.corruption > 0 {
                SentryView {
                    health: clamp_int(old(sentry)@.health - old(sentry)@.corruption, 0, old(sentry)@.max_health),
                    corruption: old(sentry)@.corruption - 1,
                    ..old(sentry)@
                }
            } else {
                old(sentry)@
            };
            let acts = encounter_live && old(noise).spec_noise() < old(noise).spec_max_noise() && ticked.health > 0;
            &&& turn.corruption_damage == old(sentry)@.health - ticked.health
            &&& turn.corruption == ticked.corruption
            &&& turn.defeated == (final(sentry)@.health <= 0)
            &&& acts ==> final(sentry)@ == advanced(ticked) && turn.action == queued(ticked)
            &&& !acts ==> final(sentry)@ == ticked && turn.action is None
            &&& turn.action matches Some(action) ==> {
                &&& final(noise).spec_noise() == old(noise).after_add(action.noise as int).0
                &&& final(noise).spec_shield() == old(noise).after_add(action.noise as int).1
                &&& turn.noise_added == final(noise).spec_noise() - old(noise).spec_noise()
            }
            &&& turn.action is None ==> *final(noise) == *old(noise) && turn.noise_added == 0
            &&& final(noise).spec_max_noise() == old(noise).spec_max_noise()
            &&& turn.run_failed == (final(noise).spec_noise() >= final(noise).spec_max_noise())
        }),
{
    let corruption_damage = sentry.resolve_corruption_tick();
    let corruption = sentry.corruption();
    let action = if encounter_live && !noise.is_at_cap() && !sentry.is_defeated() {
        sentry.perform_queued_action()
    } else {
        None
    };
    let noise_added = match &action {
        Some(performed) => noise.add(performed.noise),
        None => 0,
    };
    SecurityTurn {
        action,
        noise_added,
        corruption_damage,
        corruption,
        run_failed: noise.is_at_cap(),
        defeated: sentry.is_defeated(),
    }
}

/// Ends the player's turn: every card still in hand goes to the discard pile,
/// however many there are.
pub fn end_player_turn(hand: &mut Vec<CardData>, deck: &mut Deck)
    ensures
        final(hand)@.len() == 0,
        final(deck)@.draw == old(deck)@.draw,
        final(deck)@.discard == old(deck)@.discard + old(hand)@,
{
    let mut remaining: Vec<CardData> = Vec::new();
    core::mem::swap(hand, &mut remaining);
    deck.discard(remaining);
}

/// Opens the next turn once the security system has had its phase: shield
/// and the corruption boost do not carry over, the turn count moves on,
/// energy refills and a fresh hand is dealt.
pub fn begin_next_turn(
    noise: &mut NoiseLevel,
    sentry: &mut Sentry,
    turn_number: &mut i32,
    energy: &mut i32,
    max_energy: i32,
    hand: &mut Vec<CardData>,
    deck: &mut Deck,
    hand_size: usize,
    rng: &mut StdRng,
)
    requires
        *old(turn_number) < i32::MAX,
    ensures
        final(noise).spec_shield() == 0,
        final(noise).spec_noise() == old(noise).spec_noise(),
        final(noise).spec_max_noise() == old(noise).spec_max_noise(),
        final(noise).spec_resistance_percent() == old(noise).spec_resistance_percent(),
        final(sentry)@ == (SentryView { corruption_boost: 0, ..old(sentry)@ }),
        *final(turn_number) == *old(turn_number) + 1,
        *final(energy) == max_energy,
        drawn_as(
            DeckView { draw: old(deck)@.draw, discard: old(deck)@.discard + old(hand)@ },
            hand_size as nat,
            final(hand)@,
            final(deck)@,
        ),
{
    noise.clear_shield();
    sentry.clear_corruption_boost();
    *turn_number = *turn_number + 1;
    deal_hand(hand, deck, energy, max_energy, hand_size, rng);
}

} // verus!
