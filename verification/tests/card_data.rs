use cyber_heist::card_data::{CardData, CardType, Keyword, Rarity, WeakSide};

fn pretext_card(threshold: i32) -> CardData {
    CardData {
        id: "pretext".into(),
        name: "Confident Pretext".into(),
        description: "Convince the guard you belong here.".into(),
        cost: 1,
        noise_generated: 0,
        card_type: CardType::SocialEngineering,
        rarity: Rarity::Common,
        keywords: vec![Keyword::Knowledge(2)],
        weak_side: Some(WeakSide {
            noise_threshold: threshold,
            name: Some("Nervous Excuse".into()),
            description: "You stammer through an excuse.".into(),
            keywords: vec![Keyword::Knowledge(1)],
        }),
    }
}

#[test]
fn uses_strong_side_below_threshold() {
    let card = pretext_card(50);
    assert!(!card.is_flipped(10));
    assert_eq!(card.active_keywords(10), vec![Keyword::Knowledge(2)]);
    assert_eq!(card.display_name(10), "Confident Pretext");
}

#[test]
fn flips_to_weak_side_at_threshold() {
    let card = pretext_card(50);
    assert!(card.is_flipped(50));
    assert_eq!(card.active_keywords(50), vec![Keyword::Knowledge(1)]);
    assert_eq!(card.display_name(50), "Nervous Excuse");
}

#[test]
fn non_flipping_card_ignores_noise() {
    let mut card = pretext_card(50);
    card.weak_side = None;
    assert!(!card.is_flipped(999));
    assert_eq!(card.active_keywords(999), vec![Keyword::Knowledge(2)]);
}

#[test]
fn an_unnamed_weak_side_is_marked_weak_and_shows_its_own_description() {
    let mut card = pretext_card(50);
    if let Some(weak) = card.weak_side.as_mut() {
        weak.name = None;
    }
    assert_eq!(card.display_name(60), "Confident Pretext (Weak)");
    assert_eq!(card.active_description(60), "You stammer through an excuse.");
    assert_eq!(card.active_description(49), "Convince the guard you belong here.");
}

#[test]
fn a_duplicated_card_is_the_same_card() {
    let card = pretext_card(50);
    let copy = card.duplicate();
    assert_eq!(copy.id, card.id);
    assert_eq!(copy.display_name(60), card.display_name(60));
    assert_eq!(copy.active_keywords(60), card.active_keywords(60));
}
