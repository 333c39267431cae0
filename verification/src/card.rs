//! The general shape of a card: enough of one to be drawn into a hand.

use vstd::prelude::*;

verus! {

#[derive(Clone, Copy, Debug, PartialEq, Eq, Structural)]
pub enum Rarity {
    Common,
    Uncommon,
    Rare,
    Legendary,
}

#[derive(Clone, Copy, Debug, PartialEq, Eq, Structural)]
pub enum CardType {
    Attack,
    Skill,
    Power,
    Curse,
    Status,
}

#[derive(Clone, Copy, Debug, PartialEq, Eq, Structural)]
pub enum TargetType {
    Untargeted,
    SelfTarget,
    Enemy,
    AllEnemies,
}

#[derive(Clone, Debug, PartialEq, Eq)]
pub struct Card {
    pub id: String,
    pub name: String,
    pub cost: i32,
    pub rarity: Rarity,
    pub target_type: TargetType,
    pub card_type: CardType,
    pub description: String,
    pub upgraded: bool,
}

impl Card {
    /// A card as authored, not yet upgraded.
    pub fn new(
        id: &str,
        name: &str,
        cost: i32,
        rarity: Rarity,
        target_type: TargetType,
        card_type: CardType,
        description: &str,
    ) -> (card: Self)
        ensures
            card.id@ == id@,
            card.name@ == name@,
            card.cost == cost,
            card.rarity == rarity,
            card.target_type == target_type,
            card.card_type == card_type,
            card.description@ == description@,
            !card.upgraded,
    {
        Card {
            id: String::from_str(id),
            name: String::from_str(name),
            cost,
            rarity,
            target_type,
            card_type,
            description: String::from_str(description),
            upgraded: false,
        }
    }
}

} // verus!
