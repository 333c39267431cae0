//! Player-facing text for cards: the wording the detail panel shows, with
//! every effect named and explained.

use vstd::prelude::*;
use crate::card_data::{CardData, CardType, Keyword, Rarity, description_at, keywords_at, name_at};
use crate::text::{
    decimal, digit_char, is_white, lemma_already_trimmed, number_after, number_between, signed_decimal,
    signed_number_after, signed_number_between, trimmed,
};

verus! {

/// One effect on a card, named and explained.
#[derive(Clone, Debug, PartialEq, Eq)]
pub struct KeywordDetail {
    /// Short name including its amount, e.g. "Corrupting 4".
    pub label: String,
    /// What that effect actually does.
    pub explanation: String,
}

/// Everything the detail panel needs to describe a single card.
#[derive(Clone, Debug, PartialEq, Eq)]
pub struct CardDetail {
    pub name: String,
    pub card_type: String,
    pub rarity: String,
    pub cost: i64,
    pub cost_text: String,
    pub noise_text: String,
    pub description: String,
    pub keywords: Vec<KeywordDetail>,
}

pub open spec fn card_type_text(card_type: CardType) -> Seq<char> {
    match card_type {
        CardType::Attack => "Attack"@,
        CardType::Defence => "Defence"@,
        CardType::Skill => "Skill"@,
        CardType::Recon => "Recon"@,
        CardType::SocialEngineering => "Social Engineering"@,
    }
}

pub open spec fn rarity_text(rarity: Rarity) -> Seq<char> {
    match rarity {
        Rarity::Common => "Common"@,
        Rarity::Uncommon => "Uncommon"@,
        Rarity::Rare => "Rare"@,
        Rarity::Legendary => "Legendary"@,
    }
}

/// Energy cost, worded so a free card does not read as "Cost 0".
pub open spec fn cost_wording(cost: u8) -> Seq<char> {
    if cost == 0 {
        "Free to play"@
    } else if cost == 1 {
        "Costs 1 energy"@
    } else {
        "Costs "@ + decimal(cost as nat) + " energy"@
    }
}

/// Noise, worded by direction so the player can tell a risk from a cover.
pub open spec fn noise_wording(noise: i8) -> Seq<char> {
    if noise == 0 {
        "Makes no noise"@
    } else if noise > 0 {
        "Generates "@ + decimal(noise as nat) + " noise"@
    } else {
        "Reduces noise by "@ + decimal((-noise) as nat)
    }
}

/// A keyword can be worded: a cleansing amount has a magnitude to show.
pub open spec fn wordable(keyword: Keyword) -> bool {
    !(keyword matches Keyword::Corrupting(amount) && amount == i32::MIN)
}

/// The short name of an effect, including its amount where it has one.
pub open spec fn label_text(keyword: Keyword) -> Seq<char> {
    match keyword {
        Keyword::Damage(amount) => "Damage "@ + decimal(amount as nat),
        Keyword::Block(amount) => "Block "@ + decimal(amount as nat),
        Keyword::Penetrating(amount) => "Penetrating "@ + decimal(amount as nat),
        Keyword::Corrupting(amount) => if amount < 0 {
            "Cleansing "@ + decimal((-amount) as nat)
        } else {
            "Corrupting "@ + decimal(amount as nat)
        },
        Keyword::Intangible(amount) => "Intangible "@ + decimal(amount as nat),
        Keyword::Knowledge(amount) => "Knowledge "@ + signed_decimal(amount as int),
        Keyword::Draw(amount) => "Draw "@ + decimal(amount as nat),
        Keyword::MaxEnergyBoost(amount) => "Max Energy +"@ + decimal(amount as nat),
        Keyword::CorruptingBoost(amount) => "Corrupting Boost "@ + decimal(amount as nat),
        Keyword::Exhaust => "Exhaust"@,
        Keyword::Flip => "Flip"@,
    }
}

/// What an effect does, so the player does not have to guess at a keyword.
pub open spec fn explanation_text(keyword: Keyword) -> Seq<char> {
    match keyword {
        Keyword::Damage(amount) => "Deals "@ + decimal(amount as nat)
            + " damage to the target. Block absorbs it first."@,
        Keyword::Block(amount) => "Gains "@ + decimal(amount as nat)
            + " block, absorbing that much damage before it reaches your health."@,
        Keyword::Penetrating(amount) => "Deals "@ + decimal(amount as nat)
            + " damage straight through the target's block."@,
        Keyword::Corrupting(amount) => if amount < 0 {
            "Removes "@ + decimal((-amount) as nat) + " corruption from the target."@
        } else {
            "Applies "@ + decimal(amount as nat) + " corruption. Some cards hit corrupted targets harder."@
        },
        Keyword::Intangible(amount) => "For the next "@ + decimal(amount as nat)
            + " turn(s), damage you take is reduced to 1."@,
        Keyword::Knowledge(amount) => "Reveals "@ + signed_decimal(amount as int)
            + " piece(s) of hidden information about the security system."@,
        Keyword::Draw(amount) => "Draw "@ + decimal(amount as nat) + " extra card(s) immediately."@,
        Keyword::MaxEnergyBoost(amount) => "Raises your max energy by "@ + decimal(amount as nat)
            + " for the rest of this combat."@,
        Keyword::CorruptingBoost(amount) => "For the rest of this turn, every Corrupting effect you apply is "@
            + decimal(amount as nat) + " stronger."@,
        Keyword::Exhaust => "Once played, this card leaves the encounter instead of going to the discard pile."@,
        Keyword::Flip => "Turns the card to its alternate face for the rest of the encounter."@,
    }
}

pub fn card_type_name(card_type: CardType) -> (name: &'static str)
    ensures
        name@ == card_type_text(card_type),
{
    match card_type {
        CardType::Attack => "Attack",
        CardType::Defence => "Defence",
        CardType::Skill => "Skill",
        CardType::Recon => "Recon",
        CardType::SocialEngineering => "Social Engineering",
    }
}

pub fn rarity_name(rarity: Rarity) -> (name: &'static str)
    ensures
        name@ == rarity_text(rarity),
{
    match rarity {
        Rarity::Common => "Common",
        Rarity::Uncommon => "Uncommon",
        Rarity::Rare => "Rare",
        Rarity::Legendary => "Legendary",
    }
}

/// Energy cost, worded so a free card does not read as "Cost 0".
pub fn cost_text(cost: u8) -> (text: String)
    ensures
        text@ == cost_wording(cost),
{
    if cost == 0 {
        String::from_str("Free to play")
    } else if cost == 1 {
        String::from_str("Costs 1 energy")
    } else {
        number_between("Costs ", cost as u64, " energy")
    }
}

/// Noise, worded by direction so the player can tell a risk from a cover.
pub fn noise_text(noise: i8) -> (text: String)
    ensures
        text@ == noise_wording(noise),
{
    if noise == 0 {
        String::from_str("Makes no noise")
    } else if noise > 0 {
        number_between("Generates ", noise as u64, " noise")
    } else {
        let magnitude: i32 = -(noise as i32);
        number_after("Reduces noise by ", magnitude as u64)
    }
}

/// Short name of an effect, including its amount where it has one. A
/// negative corruption reads as cleansing rather than with a minus sign.
pub fn keyword_label(keyword: &Keyword) -> (label: String)
    requires
        wordable(*keyword),
    ensures
        label@ == label_text(*keyword),
{
    match keyword {
        Keyword::Damage(amount) => number_after("Damage ", *amount as u64),
        Keyword::Block(amount) => number_after("Block ", *amount as u64),
        Keyword::Penetrating(amount) => number_after("Penetrating ", *amount as u64),
        Keyword::Corrupting(amount) => {
            if *amount < 0 {
                let magnitude: i32 = -*amount;
                number_after("Cleansing ", magnitude as u64)
            } else {
                number_after("Corrupting ", *amount as u64)
            }
        },
        Keyword::Intangible(amount) => number_after("Intangible ", *amount as u64),
        Keyword::Knowledge(amount) => signed_number_after("Knowledge ", *amount as i64),
        Keyword::Draw(amount) => number_after("Draw ", *amount as u64),
        Keyword::MaxEnergyBoost(amount) => number_after("Max Energy +", *amount as u64),
        Keyword::CorruptingBoost(amount) => number_after("Corrupting Boost ", *amount as u64),
        Keyword::Exhaust => String::from_str("Exhaust"),
        Keyword::Flip => String::from_str("Flip"),
    }
}

/// What an effect does, so the player does not have to guess at a keyword:
/// the glossary the detail panel shows beside each effect.
pub fn keyword_explanation(keyword: &Keyword) -> (explanation: String)
    requires
        wordable(*keyword),
    ensures
        explanation@ == explanation_text(*keyword),
{
    match keyword {
        Keyword::Damage(amount) => number_between(
            "Deals ",
            *amount as u64,
            " damage to the target. Block absorbs it first.",
        ),
        Keyword::Block(amount) => number_between(
            "Gains ",
            *amount as u64,
            " block, absorbing that much damage before it reaches your health.",
        ),
        Keyword::Penetrating(amount) => number_between(
            "Deals ",
            *amount as u64,
            " damage straight through the target's block.",
        ),
        Keyword::Corrupting(amount) => {
            if *amount < 0 {
                let magnitude: i32 = -*amount;
                number_between("Removes ", magnitude as u64, " corruption from the target.")
            } else {
                number_between(
                    "Applies ",
                    *amount as u64,
                    " corruption. Some cards hit corrupted targets harder.",
                )
            }
        },
        Keyword::Intangible(amount) => number_between(
            "For the next ",
            *amount as u64,
            " turn(s), damage you take is reduced to 1.",
        ),
        Keyword::Knowledge(amount) => signed_number_between(
            "Reveals ",
            *amount as i64,
            " piece(s) of hidden information about the security system.",
        ),
        Keyword::Draw(amount) => number_between("Draw ", *amount as u64, " extra card(s) immediately."),
        Keyword::MaxEnergyBoost(amount) => number_between(
            "Raises your max energy by ",
            *amount as u64,
            " for the rest of this combat.",
        ),
        Keyword::CorruptingBoost(amount) => number_between(
            "For the rest of this turn, every Corrupting effect you apply is ",
            *amount as u64,
            " stronger.",
        ),
        Keyword::Exhaust => String::from_str(
            "Once played, this card leaves the encounter instead of going to the discard pile.",
        ),
        Keyword::Flip => String::from_str("Turns the card to its alternate face for the rest of the encounter."),
    }
}

/// `detail` is the full breakdown of `card` at `noise`.
pub open spec fn describes_card(detail: CardDetail, card: CardData, noise: int) -> bool {
    let keywords = keywords_at(card, noise);
    &&& detail.name@ == name_at(card, noise)
    &&& detail.card_type@ == card_type_text(card.card_type)
    &&& detail.rarity@ == rarity_text(card.rarity)
    &&& detail.cost == card.cost as i64
    &&& detail.cost_text@ == cost_wording(card.cost)
    &&& detail.noise_text@ == noise_wording(card.noise_generated)
    &&& detail.description@ == description_at(card, noise)
    &&& detail.keywords@.len() == keywords.len()
    &&& forall|k: int|
        0 <= k < keywords.len() ==> (#[trigger] detail.keywords@[k]).label@ == label_text(keywords[k])
            && detail.keywords@[k].explanation@ == explanation_text(keywords[k])
}

/// Builds the full player-facing breakdown of a card: one entry per effect
/// it has at `current_noise`, each named and explained.
pub fn describe(card: &CardData, current_noise: i32) -> (detail: CardDetail)
    requires
        forall|k: int| 0 <= k < keywords_at(*card, current_noise as int).len()
            ==> wordable(#[trigger] keywords_at(*card, current_noise as int)[k]),
    ensures
        describes_card(detail, *card, current_noise as int),
{
    let active = card.active_keywords(current_noise);
    let mut keywords: Vec<KeywordDetail> = Vec::new();
    let mut k: usize = 0;
    while k < active.len()
        invariant
            active@ == keywords_at(*card, current_noise as int),
            forall|q: int| 0 <= q < active@.len() ==> wordable(#[trigger] active@[q]),
            k <= active@.len(),
            keywords@.len() == k,
            forall|q: int|
                0 <= q < k ==> (#[trigger] keywords@[q]).label@ == label_text(active@[q])
                    && keywords@[q].explanation@ == explanation_text(active@[q]),
        decreases active@.len() - k,
    {
        let keyword = active[k];
        keywords.push(
            KeywordDetail { label: keyword_label(&keyword), explanation: keyword_explanation(&keyword) },
        );
        k += 1;
    }
    CardDetail {
        name: card.display_name(current_noise),
        card_type: String::from_str(card_type_name(card.card_type)),
        rarity: String::from_str(rarity_name(card.rarity)),
        cost: card.cost as i64,
        cost_text: cost_text(card.cost),
        noise_text: noise_text(card.noise_generated),
        description: String::from_str(card.active_description(current_noise)),
        keywords,
    }
}


/// A number written out is never empty and never ends in whitespace.
proof fn lemma_decimal_ends_in_a_digit(n: nat)
    ensures
        decimal(n).len() >= 1,
        !is_white(decimal(n).last()),
    decreases n,
{
    if n >= 10 {
        lemma_decimal_ends_in_a_digit(n / 10);
    }
    let d: nat = if n < 10 { n } else { n % 10 };
    assert(decimal(n).last() == digit_char(d));
}

/// `head` then `tail` starts as `head` does and ends as `tail` does.
proof fn lemma_joined_ends(head: Seq<char>, tail: Seq<char>)
    requires
        head.len() > 0,
        tail.len() > 0,
    ensures
        (head + tail)[0] == head[0],
        (head + tail).last() == tail.last(),
        (head + tail).len() == head.len() + tail.len(),
{
}

/// Every effect the panel can word comes with an explanation that says more
/// than its label: neither has whitespace to trim around it, the label is
/// never empty, and the explanation is always the longer.
pub proof fn law_an_explanation_says_more_than_its_label(keyword: Keyword)
    requires
        wordable(keyword),
    ensures
        label_text(keyword).len() > 0,
        trimmed(label_text(keyword)) == label_text(keyword),
        trimmed(explanation_text(keyword)) == explanation_text(keyword),
        explanation_text(keyword).len() > label_text(keyword).len(),
{
    let label = label_text(keyword);
    let explanation = explanation_text(keyword);
    match keyword {
        Keyword::Damage(amount) => {
            reveal_strlit("Damage ");
            reveal_strlit("Deals ");
            reveal_strlit(" damage to the target. Block absorbs it first.");
            lemma_decimal_ends_in_a_digit(amount as nat);
            lemma_joined_ends("Damage "@, decimal(amount as nat));
            lemma_joined_ends("Deals "@, decimal(amount as nat));
            lemma_joined_ends("Deals "@ + decimal(amount as nat), " damage to the target. Block absorbs it first."@);
        },
        Keyword::Block(amount) => {
            reveal_strlit("Block ");
            reveal_strlit("Gains ");
            reveal_strlit(" block, absorbing that much damage before it reaches your health.");
            lemma_decimal_ends_in_a_digit(amount as nat);
            lemma_joined_ends("Block "@, decimal(amount as nat));
            lemma_joined_ends("Gains "@, decimal(amount as nat));
            lemma_joined_ends(
                "Gains "@ + decimal(amount as nat),
                " block, absorbing that much damage before it reaches your health."@,
            );
        },
        Keyword::Penetrating(amount) => {
            reveal_strlit("Penetrating ");
            reveal_strlit("Deals ");
            reveal_strlit(" damage straight through the target's block.");
            lemma_decimal_ends_in_a_digit(amount as nat);
            lemma_joined_ends("Penetrating "@, decimal(amount as nat));
            lemma_joined_ends("Deals "@, decimal(amount as nat));
            lemma_joined_ends("Deals "@ + decimal(amount as nat), " damage straight through the target's block."@);
        },
        Keyword::Corrupting(amount) => {
            if amount < 0 {
                reveal_strlit("Cleansing ");
                reveal_strlit("Removes ");
                reveal_strlit(" corruption from the target.");
                lemma_decimal_ends_in_a_digit((-amount) as nat);
                lemma_joined_ends("Cleansing "@, decimal((-amount) as nat));
                lemma_joined_ends("Removes "@, decimal((-amount) as nat));
                lemma_joined_ends("Removes "@ + decimal((-amount) as nat), " corruption from the target."@);
            } else {
                reveal_strlit("Corrupting ");
                reveal_strlit("Applies ");
                reveal_strlit(" corruption. Some cards hit corrupted targets harder.");
                lemma_decimal_ends_in_a_digit(amount as nat);
                lemma_joined_ends("Corrupting "@, decimal(amount as nat));
                lemma_joined_ends("Applies "@, decimal(amount as nat));
                lemma_joined_ends(
                    "Applies "@ + decimal(amount as nat),
                    " corruption. Some cards hit corrupted targets harder."@,
                );
            }
        },
        Keyword::Intangible(amount) => {
            reveal_strlit("Intangible ");
            reveal_strlit("For the next ");
            reveal_strlit(" turn(s), damage you take is reduced to 1.");
            lemma_decimal_ends_in_a_digit(amount as nat);
            lemma_joined_ends("Intangible "@, decimal(amount as nat));
            lemma_joined_ends("For the next "@, decimal(amount as nat));
            lemma_joined_ends("For the next "@ + decimal(amount as nat), " turn(s), damage you take is reduced to 1."@);
        },
        Keyword::Knowledge(amount) => {
            reveal_strlit("Knowledge ");
            reveal_strlit("Reveals ");
            reveal_strlit(" piece(s) of hidden information about the security system.");
            let number = signed_decimal(amount as int);
            if amount < 0 {
                lemma_decimal_ends_in_a_digit((-amount) as nat);
                lemma_joined_ends(seq!['-'], decimal((-amount) as nat));
            } else {
                lemma_decimal_ends_in_a_digit(amount as nat);
            }
            lemma_joined_ends("Knowledge "@, number);
            lemma_joined_ends("Reveals "@, number);
            lemma_joined_ends(
                "Reveals "@ + number,
                " piece(s) of hidden information about the security system."@,
            );
        },
        Keyword::Draw(amount) => {
            reveal_strlit("Draw ");
            reveal_strlit(" extra card(s) immediately.");
            lemma_decimal_ends_in_a_digit(amount as nat);
            lemma_joined_ends("Draw "@, decimal(amount as nat));
            lemma_joined_ends("Draw "@ + decimal(amount as nat), " extra card(s) immediately."@);
        },
        Keyword::MaxEnergyBoost(amount) => {
            reveal_strlit("Max Energy +");
            reveal_strlit("Raises your max energy by ");
            reveal_strlit(" for the rest of this combat.");
            lemma_decimal_ends_in_a_digit(amount as nat);
            lemma_joined_ends("Max Energy +"@, decimal(amount as nat));
            lemma_joined_ends("Raises your max energy by "@, decimal(amount as nat));
            lemma_joined_ends("Raises your max energy by "@ + decimal(amount as nat), " for the rest of this combat."@);
        },
        Keyword::CorruptingBoost(amount) => {
            reveal_strlit("Corrupting Boost ");
            reveal_strlit("For the rest of this turn, every Corrupting effect you apply is ");
            reveal_strlit(" stronger.");
            lemma_decimal_ends_in_a_digit(amount as nat);
            lemma_joined_ends("Corrupting Boost "@, decimal(amount as nat));
            lemma_joined_ends(
                "For the rest of this turn, every Corrupting effect you apply is "@,
                decimal(amount as nat),
            );
            lemma_joined_ends(
                "For the rest of this turn, every Corrupting effect you apply is "@ + decimal(amount as nat),
                " stronger."@,
            );
        },
        Keyword::Exhaust => {
            reveal_strlit("Exhaust");
            reveal_strlit("Once played, this card leaves the encounter instead of going to the discard pile.");
        },
        Keyword::Flip => {
            reveal_strlit("Flip");
            reveal_strlit("Turns the card to its alternate face for the rest of the encounter.");
        },
    }
    lemma_already_trimmed(label);
    lemma_already_trimmed(explanation);
}

/// A number written out starts with a digit, and takes two digits or more
/// from ten up.
proof fn lemma_decimal_shape(n: nat)
    ensures
        '0' <= decimal(n)[0] <= '9',
        decimal(n).len() >= 1,
        n >= 10 ==> decimal(n).len() >= 2,
    decreases n,
{
    if n >= 10 {
        lemma_decimal_shape(n / 10);
        assert(decimal(n)[0] == decimal(n / 10)[0]);
    }
}

/// Two numbers written out alike are the same number.
proof fn lemma_decimal_injective(x: nat, y: nat)
    requires
        decimal(x) == decimal(y),
    ensures
        x == y,
    decreases x,
{
    lemma_decimal_shape(x);
    lemma_decimal_shape(y);
    if x >= 10 && y >= 10 {
        assert(decimal(x).last() == digit_char(x % 10));
        assert(decimal(y).last() == digit_char(y % 10));
        assert(decimal(x).drop_last() =~= decimal(x / 10));
        assert(decimal(y).drop_last() =~= decimal(y / 10));
        lemma_decimal_injective(x / 10, y / 10);
    } else if x < 10 && y < 10 {
        assert(decimal(x)[0] == digit_char(x));
        assert(decimal(y)[0] == digit_char(y));
    }
}

/// The same head followed by two tails reads alike only if the tails do.
proof fn lemma_same_head(head: Seq<char>, a: Seq<char>, b: Seq<char>)
    requires
        head + a == head + b,
    ensures
        a == b,
{
    assert((head + a).subrange(head.len() as int, (head + a).len() as int) =~= a);
    assert((head + b).subrange(head.len() as int, (head + b).len() as int) =~= b);
}

/// Two signed numbers written out alike are the same number.
proof fn lemma_signed_decimal_injective(x: int, y: int)
    requires
        signed_decimal(x) == signed_decimal(y),
    ensures
        x == y,
{
    lemma_decimal_shape(if x < 0 { (-x) as nat } else { x as nat });
    lemma_decimal_shape(if y < 0 { (-y) as nat } else { y as nat });
    if x < 0 && y < 0 {
        lemma_same_head(seq!['-'], decimal((-x) as nat), decimal((-y) as nat));
        lemma_decimal_injective((-x) as nat, (-y) as nat);
    } else if x >= 0 && y >= 0 {
        lemma_decimal_injective(x as nat, y as nat);
    } else {
        assert(signed_decimal(x)[0] == signed_decimal(y)[0]);
    }
}

/// A label names one effect: two effects that read alike on the card are
/// the same effect with the same amount. So a label never borrows another
/// effect's name, and never hides a different amount.
pub proof fn law_each_label_names_one_effect(a: Keyword, b: Keyword)
    requires
        wordable(a),
        wordable(b),
        label_text(a) == label_text(b),
    ensures
        a == b,
{
    reveal_strlit("Damage ");
    reveal_strlit("Block ");
    reveal_strlit("Penetrating ");
    reveal_strlit("Cleansing ");
    reveal_strlit("Corrupting ");
    reveal_strlit("Intangible ");
    reveal_strlit("Knowledge ");
    reveal_strlit("Draw ");
    reveal_strlit("Max Energy +");
    reveal_strlit("Corrupting Boost ");
    reveal_strlit("Exhaust");
    reveal_strlit("Flip");
    let la = label_text(a);
    let lb = label_text(b);
    match a {
        Keyword::Damage(x) => lemma_decimal_shape(x as nat),
        Keyword::Block(x) => lemma_decimal_shape(x as nat),
        Keyword::Penetrating(x) => lemma_decimal_shape(x as nat),
        Keyword::Corrupting(x) => lemma_decimal_shape(if x < 0 { (-x) as nat } else { x as nat }),
        Keyword::Intangible(x) => lemma_decimal_shape(x as nat),
        Keyword::Knowledge(x) => lemma_decimal_shape(if x < 0 { (-x) as nat } else { x as nat }),
        Keyword::Draw(x) => lemma_decimal_shape(x as nat),
        Keyword::MaxEnergyBoost(x) => lemma_decimal_shape(x as nat),
        Keyword::CorruptingBoost(x) => lemma_decimal_shape(x as nat),
        _ => {},
    }
    match b {
        Keyword::Damage(x) => lemma_decimal_shape(x as nat),
        Keyword::Block(x) => lemma_decimal_shape(x as nat),
        Keyword::Penetrating(x) => lemma_decimal_shape(x as nat),
        Keyword::Corrupting(x) => lemma_decimal_shape(if x < 0 { (-x) as nat } else { x as nat }),
        Keyword::Intangible(x) => lemma_decimal_shape(x as nat),
        Keyword::Knowledge(x) => lemma_decimal_shape(if x < 0 { (-x) as nat } else { x as nat }),
        Keyword::Draw(x) => lemma_decimal_shape(x as nat),
        Keyword::MaxEnergyBoost(x) => lemma_decimal_shape(x as nat),
        Keyword::CorruptingBoost(x) => lemma_decimal_shape(x as nat),
        _ => {},
    }
    assert(la[0] == lb[0]);
    assert(la.len() == lb.len());
    if la.len() > 1 {
        assert(la[1] == lb[1]);
    }
    if la.len() > 11 {
        assert(la[11] == lb[11]);
    }
    match (a, b) {
        (Keyword::Damage(x), Keyword::Damage(y)) => {
            lemma_same_head("Damage "@, decimal(x as nat), decimal(y as nat));
            lemma_decimal_injective(x as nat, y as nat);
        },
        (Keyword::Block(x), Keyword::Block(y)) => {
            lemma_same_head("Block "@, decimal(x as nat), decimal(y as nat));
            lemma_decimal_injective(x as nat, y as nat);
        },
        (Keyword::Penetrating(x), Keyword::Penetrating(y)) => {
            lemma_same_head("Penetrating "@, decimal(x as nat), decimal(y as nat));
            lemma_decimal_injective(x as nat, y as nat);
        },
        (Keyword::Corrupting(x), Keyword::Corrupting(y)) => {
            if x < 0 && y < 0 {
                lemma_same_head("Cleansing "@, decimal((-x) as nat), decimal((-y) as nat));
                lemma_decimal_injective((-x) as nat, (-y) as nat);
            } else if x >= 0 && y >= 0 {
                lemma_same_head("Corrupting "@, decimal(x as nat), decimal(y as nat));
                lemma_decimal_injective(x as nat, y as nat);
            }
        },
        (Keyword::Intangible(x), Keyword::Intangible(y)) => {
            lemma_same_head("Intangible "@, decimal(x as nat), decimal(y as nat));
            lemma_decimal_injective(x as nat, y as nat);
        },
        (Keyword::Knowledge(x), Keyword::Knowledge(y)) => {
            lemma_same_head("Knowledge "@, signed_decimal(x as int), signed_decimal(y as int));
            lemma_signed_decimal_injective(x as int, y as int);
        },
        (Keyword::Draw(x), Keyword::Draw(y)) => {
            lemma_same_head("Draw "@, decimal(x as nat), decimal(y as nat));
            lemma_decimal_injective(x as nat, y as nat);
        },
        (Keyword::MaxEnergyBoost(x), Keyword::MaxEnergyBoost(y)) => {
            lemma_same_head("Max Energy +"@, decimal(x as nat), decimal(y as nat));
            lemma_decimal_injective(x as nat, y as nat);
        },
        (Keyword::CorruptingBoost(x), Keyword::CorruptingBoost(y)) => {
            lemma_same_head("Corrupting Boost "@, decimal(x as nat), decimal(y as nat));
            lemma_decimal_injective(x as nat, y as nat);
        },
        _ => {},
    }
}

} // verus!
