//! The cards a player plays, as the game data describes them.
//!
//! A card may have a weak side: once the noise meter reaches the side's
//! threshold, the card reads and plays as that side instead.

use vstd::prelude::*;

verus! {

#[derive(Debug, Clone, Copy, PartialEq, Eq, Structural)]
pub enum CardType {
    Attack,
    Defence,
    Skill,
    Recon,
    SocialEngineering,
}

#[derive(Debug, Clone, Copy, PartialEq, Eq, Structural)]
pub enum Rarity {
    Common,
    Uncommon,
    Rare,
    Legendary,
}

/// One effect a card carries, with its amount where it has one.
#[derive(Debug, Clone, Copy, PartialEq, Eq, Structural)]
pub enum Keyword {
    Damage(u32),
    Block(u32),
    Penetrating(u32),
    Corrupting(i32),
    Intangible(u32),
    Knowledge(i32),
    Draw(u32),
    MaxEnergyBoost(u32),
    CorruptingBoost(u32),
    Exhaust,
    Flip,
}

/// The side a card turns to once the noise reaches `noise_threshold`.
#[derive(Debug, Clone)]
pub struct WeakSide {
    pub noise_threshold: i32,
    pub name: Option<String>,
    pub description: String,
    pub keywords: Vec<Keyword>,
}

#[derive(Debug, Clone)]
pub struct CardData {
    pub id: String,
    pub name: String,
    pub description: String,
    pub cost: u8,
    pub noise_generated: i8,
    pub card_type: CardType,
    pub rarity: Rarity,
    pub keywords: Vec<Keyword>,
    pub weak_side: Option<WeakSide>,
}

/// At `noise`, the card reads and plays as its weak side.
pub open spec fn flipped_at(card: CardData, noise: int) -> bool {
    card.weak_side matches Some(weak) && noise >= weak.noise_threshold
}

/// The effects the card has at `noise`.
pub open spec fn keywords_at(card: CardData, noise: int) -> Seq<Keyword> {
    if flipped_at(card, noise) {
        card.weak_side->0.keywords@
    } else {
        card.keywords@
    }
}

/// The name the card goes by at `noise`: its weak side's own name, or its
/// usual name marked as weak.
pub open spec fn name_at(card: CardData, noise: int) -> Seq<char> {
    if flipped_at(card, noise) {
        match card.weak_side->0.name {
            Some(name) => name@,
            None => card.name@ + " (Weak)"@,
        }
    } else {
        card.name@
    }
}

/// The description the card shows at `noise`.
pub open spec fn description_at(card: CardData, noise: int) -> Seq<char> {
    if flipped_at(card, noise) {
        card.weak_side->0.description@
    } else {
        card.description@
    }
}

/// The keywords of `from`, copied.
pub fn copy_keywords(from: &Vec<Keyword>) -> (copy: Vec<Keyword>)
    ensures
        copy@ == from@,
{
    let mut copy: Vec<Keyword> = Vec::new();
    let mut i: usize = 0;
    while i < from.len()
        invariant
            i <= from@.len(),
            copy@ == from@.take(i as int),
        decreases from@.len() - i,
    {
        copy.push(from[i]);
        proof {
            assert(from@.take(i + 1) =~= from@.take(i as int).push(from@[i as int]));
        }
        i += 1;
    }
    proof {
        assert(from@.take(from@.len() as int) =~= from@);
    }
    copy
}

impl WeakSide {
    /// A copy of this side, field for field.
    pub fn duplicate(&self) -> (copy: Self)
        ensures
            copy.noise_threshold == self.noise_threshold,
            copy.name == self.name,
            copy.description == self.description,
            copy.keywords@ == self.keywords@,
    {
        let name = match &self.name {
            Some(name) => Some(name.clone()),
            None => None,
        };
        WeakSide {
            noise_threshold: self.noise_threshold,
            name,
            description: self.description.clone(),
            keywords: copy_keywords(&self.keywords),
        }
    }
}

/// `copy` holds the same card as `card`.
pub open spec fn same_card(copy: CardData, card: CardData) -> bool {
    &&& copy.id == card.id
    &&& copy.name == card.name
    &&& copy.description == card.description
    &&& copy.cost == card.cost
    &&& copy.noise_generated == card.noise_generated
    &&& copy.card_type == card.card_type
    &&& copy.rarity == card.rarity
    &&& copy.keywords@ == card.keywords@
    &&& (copy.weak_side is Some <==> card.weak_side is Some)
    &&& (card.weak_side matches Some(weak) ==> {
        let other = copy.weak_side->0;
        &&& other.noise_threshold == weak.noise_threshold
        &&& other.name == weak.name
        &&& other.description == weak.description
        &&& other.keywords@ == weak.keywords@
    })
}

impl CardData {
    /// A copy of this card, field for field.
    pub fn duplicate(&self) -> (copy: Self)
        ensures
            same_card(copy, *self),
    {
        let weak_side = match &self.weak_side {
            Some(weak) => Some(weak.duplicate()),
            None => None,
        };
        CardData {
            id: self.id.clone(),
            name: self.name.clone(),
            description: self.description.clone(),
            cost: self.cost,
            noise_generated: self.noise_generated,
            card_type: self.card_type,
            rarity: self.rarity,
            keywords: copy_keywords(&self.keywords),
            weak_side,
        }
    }

    /// Whether the card has turned to its weak side at `current_noise`.
    pub fn is_flipped(&self, current_noise: i32) -> (flipped: bool)
        ensures
            flipped == flipped_at(*self, current_noise as int),
    {
        match &self.weak_side {
            Some(weak) => current_noise >= weak.noise_threshold,
            None => false,
        }
    }

    /// The effects the card has at `current_noise`.
    pub fn active_keywords(&self, current_noise: i32) -> (keywords: Vec<Keyword>)
        ensures
            keywords@ == keywords_at(*self, current_noise as int),
    {
        match &self.weak_side {
            Some(weak) => {
                if current_noise >= weak.noise_threshold {
                    copy_keywords(&weak.keywords)
                } else {
                    copy_keywords(&self.keywords)
                }
            },
            None => copy_keywords(&self.keywords),
        }
    }

    /// The name the card goes by at `current_noise`.
    pub fn display_name(&self, current_noise: i32) -> (name: String)
        ensures
            name@ == name_at(*self, current_noise as int),
    {
        match &self.weak_side {
            Some(weak) => {
                if current_noise >= weak.noise_threshold {
                    match &weak.name {
                        Some(name) => name.clone(),
                        None => self.name.clone().concat(" (Weak)"),
                    }
                } else {
                    self.name.clone()
                }
            },
            None => self.name.clone(),
        }
    }

    /// The description the card shows at `current_noise`.
    pub fn active_description(&self, current_noise: i32) -> (description: &str)
        ensures
            description@ == description_at(*self, current_noise as int),
    {
        match &self.weak_side {
            Some(weak) => {
                if current_noise >= weak.noise_threshold {
                    weak.description.as_str()
                } else {
                    self.description.as_str()
                }
            },
            None => self.description.as_str(),
        }
    }
}

/// A card below its weak side's threshold reads and plays as its usual self;
/// at or above it, as the weak side; and a card without one never changes.
pub proof fn law_the_threshold_decides_the_side(card: CardData, noise: int)
    ensures
        !flipped_at(card, noise) ==> keywords_at(card, noise) == card.keywords@ && name_at(card, noise)
            == card.name@ && description_at(card, noise) == card.description@,
        card.weak_side is None ==> !flipped_at(card, noise),
        card.weak_side matches Some(weak) ==> (flipped_at(card, noise) <==> noise >= weak.noise_threshold),
{
}

/// Once a card has flipped, more noise keeps it flipped.
pub proof fn law_more_noise_never_unflips(card: CardData, noise: int, louder: int)
    requires
        flipped_at(card, noise),
        louder >= noise,
    ensures
        flipped_at(card, louder),
        keywords_at(card, louder) == keywords_at(card, noise),
        name_at(card, louder) == name_at(card, noise),
{
}

} // verus!
