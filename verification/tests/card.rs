use cyber_heist::card::{Card, CardType, Rarity, TargetType};

#[test]
fn a_new_card_is_as_authored_and_not_upgraded() {
    let card = Card::new("strike", "Strike", 1, Rarity::Common, TargetType::Enemy, CardType::Attack, "Deal 6 damage.");
    assert_eq!(card.id, "strike");
    assert_eq!(card.name, "Strike");
    assert_eq!(card.cost, 1);
    assert_eq!(card.rarity, Rarity::Common);
    assert_eq!(card.target_type, TargetType::Enemy);
    assert_eq!(card.card_type, CardType::Attack);
    assert_eq!(card.description, "Deal 6 damage.");
    assert!(!card.upgraded);
}
