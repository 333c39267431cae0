//! Playing one card from the hand, as a single transaction: the card's
//! cost is paid, its shield and damage land, its noise is made, and it goes
//! to the discard pile. A play that is refused changes nothing at all.

use vstd::prelude::*;
use crate::card_data::{CardData, Keyword, keywords_at, name_at};
use crate::deck::Deck;
use crate::noise_meter::{NoiseLevel, clamp_int, noise_added};
use crate::sentry::{Sentry, SentryView, sentry_valid};

verus! {

#[derive(Debug, PartialEq, Eq, Structural)]
pub enum PlayError {
    Detected,
    InvalidIndex,
    NotEnoughEnergy,
}

#[derive(Debug, PartialEq, Eq)]
pub struct PlayedCard {
    pub name: String,
    pub noise_change: i32,
    pub damage_dealt: i32,
    pub shield_added: i32,
}

/// The damage `keywords` deal: every plain and penetrating amount, added up.
pub open spec fn damage_of(keywords: Seq<Keyword>) -> int
    decreases keywords.len(),
{
    if keywords.len() == 0 {
        0
    } else {
        damage_of(keywords.drop_last()) + match keywords.last() {
            Keyword::Damage(amount) => amount as int,
            Keyword::Penetrating(amount) => amount as int,
            _ => 0,
        }
    }
}

/// The shield `keywords` grant: every block amount, added up.
pub open spec fn shield_of(keywords: Seq<Keyword>) -> int
    decreases keywords.len(),
{
    if keywords.len() == 0 {
        0
    } else {
        shield_of(keywords.drop_last()) + match keywords.last() {
            Keyword::Block(amount) => amount as int,
            _ => 0,
        }
    }
}

proof fn lemma_totals_grow(keywords: Seq<Keyword>, i: int)
    requires
        0 <= i <= keywords.len(),
    ensures
        0 <= damage_of(keywords.take(i)) <= damage_of(keywords),
        0 <= shield_of(keywords.take(i)) <= shield_of(keywords),
    decreases keywords.len() - i,
{
    if i < keywords.len() {
        lemma_totals_grow(keywords, i + 1);
        assert(keywords.take(i + 1).drop_last() =~= keywords.take(i));
        lemma_totals_nonnegative(keywords.take(i));
        assert(keywords.take(i + 1).last() == keywords[i]);
    } else {
        assert(keywords.take(i) =~= keywords);
        lemma_totals_nonnegative(keywords);
    }
}

proof fn lemma_totals_nonnegative(keywords: Seq<Keyword>)
    ensures
        damage_of(keywords) >= 0,
        shield_of(keywords) >= 0,
    decreases keywords.len(),
{
    if keywords.len() > 0 {
        lemma_totals_nonnegative(keywords.drop_last());
    }
}

/// The damage the keywords deal, added up.
fn total_damage(keywords: &Vec<Keyword>) -> (total: i32)
    requires
        damage_of(keywords@) <= i32::MAX,
    ensures
        total == damage_of(keywords@),
{
    let mut total: i64 = 0;
    let mut i: usize = 0;
    while i < keywords.len()
        invariant
            i <= keywords@.len(),
            damage_of(keywords@) <= i32::MAX,
            total == damage_of(keywords@.take(i as int)),
        decreases keywords@.len() - i,
    {
        proof {
            lemma_totals_grow(keywords@, i + 1);
            assert(keywords@.take(i + 1).drop_last() =~= keywords@.take(i as int));
        }
        match keywords[i] {
            Keyword::Damage(amount) => {
                total = total + amount as i64;
            },
            Keyword::Penetrating(amount) => {
                total = total + amount as i64;
            },
            _ => {},
        }
        i += 1;
    }
    proof {
        assert(keywords@.take(keywords@.len() as int) =~= keywords@);
        lemma_totals_nonnegative(keywords@);
    }
    total as i32
}

/// The shield the keywords grant, added up.
fn total_shield(keywords: &Vec<Keyword>) -> (total: i32)
    requires
        shield_of(keywords@) <= i32::MAX,
    ensures
        total == shield_of(keywords@),
{
    let mut total: i64 = 0;
    let mut i: usize = 0;
    while i < keywords.len()
        invariant
            i <= keywords@.len(),
            shield_of(keywords@) <= i32::MAX,
            total == shield_of(keywords@.take(i as int)),
        decreases keywords@.len() - i,
    {
        proof {
            lemma_totals_grow(keywords@, i + 1);
            assert(keywords@.take(i + 1).drop_last() =~= keywords@.take(i as int));
        }
        match keywords[i] {
            Keyword::Block(amount) => {
                total = total + amount as i64;
            },
            _ => {},
        }
        i += 1;
    }
    proof {
        assert(keywords@.take(keywords@.len() as int) =~= keywords@);
        lemma_totals_nonnegative(keywords@);
    }
    total as i32
}

/// Whether `keywords` add up to damage and to shield that each fit in an
/// `i32`.
fn totals_fit(keywords: &Vec<Keyword>) -> (fits: bool)
    ensures
        fits == (damage_of(keywords@) <= i32::MAX && shield_of(keywords@) <= i32::MAX),
{
    let mut damage: i64 = 0;
    let mut shield: i64 = 0;
    let mut i: usize = 0;
    while i < keywords.len()
        invariant
            i <= keywords@.len(),
            damage == damage_of(keywords@.take(i as int)),
            shield == shield_of(keywords@.take(i as int)),
            damage <= i32::MAX,
            shield <= i32::MAX,
        decreases keywords@.len() - i,
    {
        proof {
            assert(keywords@.take(i + 1).drop_last() =~= keywords@.take(i as int));
            lemma_totals_grow(keywords@, i + 1);
        }
        match keywords[i] {
            Keyword::Damage(amount) => {
                damage = damage + amount as i64;
            },
            Keyword::Penetrating(amount) => {
                damage = damage + amount as i64;
            },
            Keyword::Block(amount) => {
                shield = shield + amount as i64;
            },
            _ => {},
        }
        if damage > i32::MAX as i64 || shield > i32::MAX as i64 {
            proof {
                lemma_totals_grow(keywords@, i + 1);
            }
            return false;
        }
        i += 1;
    }
    proof {
        assert(keywords@.take(keywords@.len() as int) =~= keywords@);
    }
    true
}

/// Why a play at `index` is refused, if it is: detection first, then a card
/// that is not there, then a card that costs more than the energy left.
pub open spec fn refusal(at_cap: bool, hand: Seq<CardData>, energy: int, index: int) -> Option<PlayError> {
    if at_cap {
        Some(PlayError::Detected)
    } else if index < 0 || index >= hand.len() {
        Some(PlayError::InvalidIndex)
    } else if hand[index].cost > energy {
        Some(PlayError::NotEnoughEnergy)
    } else {
        None
    }
}

/// What a play that goes ahead relies on: the side of the card that plays
/// adds up to damage and shield that fit in the game's numbers, and the
/// sentry it hits has a health range to clamp into. A refused play relies on
/// nothing.
pub open spec fn play_can_land(
    hand: Seq<CardData>,
    at_cap: bool,
    energy: int,
    index: int,
    noise: int,
    sentry: SentryView,
) -> bool {
    refusal(at_cap, hand, energy, index) is None ==> {
        let keywords = keywords_at(hand[index], noise);
        &&& damage_of(keywords) <= i32::MAX
        &&& shield_of(keywords) <= i32::MAX
        &&& sentry_valid(sentry)
        &&& sentry.max_health >= 0
    }
}

/// Whether a play of the card at `index` either is refused or can land, as
/// `play_card` relies on.
pub fn play_can_land_check(hand: &Vec<CardData>, noise: &NoiseLevel, energy: i32, sentry: &Sentry, index: i32) -> (ok:
    bool)
    ensures
        ok == play_can_land(
            hand@,
            noise.spec_noise() >= noise.spec_max_noise(),
            energy as int,
            index as int,
            noise.spec_noise(),
            sentry@,
        ),
{
    if noise.is_at_cap() || index < 0 || index as usize >= hand.len() {
        return true;
    }
    let card = &hand[index as usize];
    if card.cost as i32 > energy {
        return true;
    }
    let keywords = card.active_keywords(noise.noise());
    totals_fit(&keywords) && sentry.is_consistent() && sentry.max_health() >= 0
}

/// Plays the card at `index` from `hand`: pays its cost from `energy`, adds
/// the shield it grants, deals its damage to `sentry`, makes its noise, and
/// moves it to the discard pile of `deck`. The side of the card that plays is
/// the one the noise selected before the play, so the card's own noise does
/// not change what it does. A refused play leaves everything as it was.
pub fn play_card(
    hand: &mut Vec<CardData>,
    deck: &mut Deck,
    energy: &mut i32,
    noise: &mut NoiseLevel,
    sentry: &mut Sentry,
    index: i32,
) -> (result: Result<PlayedCard, PlayError>)
    requires
        play_can_land(
            old(hand)@,
            old(noise).spec_noise() >= old(noise).spec_max_noise(),
            *old(energy) as int,
            index as int,
            old(noise).spec_noise(),
            old(sentry)@,
        ),
    ensures
        ({
            let refused = refusal(
                old(noise).spec_noise() >= old(noise).spec_max_noise(),
                old(hand)@,
                *old(energy) as int,
                index as int,
            );
            match result {
                Err(error) => refused == Some(error) && final(hand)@ == old(hand)@ && final(deck)@ == old(deck)@
                    && *final(energy) == *old(energy) && *final(noise) == *old(noise) && final(sentry)@ == old(
                    sentry,
                )@,
                Ok(played) => {
                    let card = old(hand)@[index as int];
                    let before = old(noise).spec_noise();
                    let keywords = keywords_at(card, before);
                    let shield = clamp_int(old(noise).spec_shield() + shield_of(keywords), 0, i32::MAX as int);
                    let after = noise_added(
                        before,
                        shield,
                        old(noise).spec_max_noise(),
                        old(noise).spec_resistance_percent(),
                        card.noise_generated as int,
                    );
                    let health = clamp_int(old(sentry)@.health - damage_of(keywords), 0, old(sentry)@.max_health);
                    &&& refused is None
                    &&& final(hand)@ == old(hand)@.remove(index as int)
                    &&& *final(energy) == *old(energy) - card.cost
                    &&& final(deck)@.draw == old(deck)@.draw
                    &&& final(deck)@.discard == old(deck)@.discard.push(card)
                    &&& final(sentry)@ == (SentryView { health, ..old(sentry)@ })
                    &&& final(noise).spec_noise() == after.0
                    &&& final(noise).spec_shield() == after.1
                    &&& final(noise).spec_max_noise() == old(noise).spec_max_noise()
                    &&& final(noise).spec_resistance_percent() == old(noise).spec_resistance_percent()
                    &&& played.name@ == name_at(card, before)
                    &&& played.noise_change == after.0 - before
                    &&& played.damage_dealt == old(sentry)@.health - health
                    &&& played.shield_added == shield - old(noise).spec_shield()
                },
            }
        }),
{
    if noise.is_at_cap() {
        return Err(PlayError::Detected);
    }
    if index < 0 || index as usize >= hand.len() {
        return Err(PlayError::InvalidIndex);
    }
    let position = index as usize;
    let cost = hand[position].cost as i32;
    if cost > *energy {
        return Err(PlayError::NotEnoughEnergy);
    }
    let card = hand.remove(position);
    *energy = *energy - cost;

    let pre_play_noise = noise.noise();
    let active_keywords = card.active_keywords(pre_play_noise);
    proof {
        assert(damage_of(keywords_at(old(hand)@[index as int], pre_play_noise as int)) <= i32::MAX);
    }
    let shield_added = noise.add_shield(total_shield(&active_keywords));
    let damage_dealt = sentry.take_damage(total_damage(&active_keywords));

    let name = card.display_name(pre_play_noise);
    let noise_change = noise.add(card.noise_generated as i32);
    let played = PlayedCard { name, noise_change, damage_dealt, shield_added };
    let mut discarded: Vec<CardData> = Vec::new();
    discarded.push(card);
    deck.discard(discarded);
    Ok(played)
}

/// A play spends exactly the card's cost and keeps energy from going below
/// zero, and a refused play costs nothing.
pub proof fn law_a_play_pays_exactly_its_cost(energy: int, cost: int, at_cap: bool, hand: Seq<CardData>, index: int)
    requires
        0 <= index < hand.len(),
        cost == hand[index].cost,
        refusal(at_cap, hand, energy, index) is None,
    ensures
        0 <= energy - cost <= energy,
{
}

} // verus!
