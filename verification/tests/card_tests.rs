use liars_table::card::Card;
use liars_table::card::CardType;
use liars_table::card::Deck;

#[test]
fn test_deck_creation() {
    let deck = Deck::new();
    assert_eq!(deck.cards.len(), 16); // 4 types x 4 cards each

    let ace_count = deck.cards.iter().filter(|c| c.card_type == CardType::Ace).count();
    let queen_count = deck.cards.iter().filter(|c| c.card_type == CardType::Queen).count();
    let king_count = deck.cards.iter().filter(|c| c.card_type == CardType::King).count();
    let joker_count = deck.cards.iter().filter(|c| c.card_type == CardType::Joker).count();

    assert_eq!(ace_count, 4);
    assert_eq!(queen_count, 4);
    assert_eq!(king_count, 4);
    assert_eq!(joker_count, 4);
}

#[test]
fn test_card_display() {
    let ace = Card { card_type: CardType::Ace, id: 1 };
    assert_eq!(ace.to_string(), "A\u{2660}");

    let joker = Card { card_type: CardType::Joker, id: 1 };
    assert_eq!(joker.to_string(), "Joker");
}

#[test]
fn test_deal() {
    let mut deck = Deck::new();
    let original_count = deck.cards.len();

    let dealt = deck.deal(5);
    assert_eq!(dealt.len(), 5);
    assert_eq!(deck.cards.len(), original_count - 5);
}

#[test]
fn test_card_display_suits() {
    assert_eq!(Card { card_type: CardType::Queen, id: 2 }.to_string(), "Q\u{2665}");
    assert_eq!(Card { card_type: CardType::King, id: 3 }.to_string(), "K\u{2666}");
    assert_eq!(Card { card_type: CardType::Ace, id: 4 }.to_string(), "A\u{2663}");
    assert_eq!(Card { card_type: CardType::Ace, id: 9 }.to_string(), "A?");
}

#[test]
fn test_card_type_display() {
    assert_eq!(CardType::Ace.to_string(), "ACE");
    assert_eq!(CardType::Queen.to_string(), "QUEEN");
    assert_eq!(CardType::King.to_string(), "KING");
    assert_eq!(CardType::Joker.to_string(), "JOKER");
}

#[test]
fn test_deal_order_matches_deck_order() {
    let mut deck = Deck::new();
    let before = deck.cards.clone();
    let dealt = deck.deal(3);
    assert_eq!(dealt, before[0..3].to_vec());
    assert_eq!(deck.cards, before[3..].to_vec());
}

#[test]
fn test_deal_truncates_on_short_deck() {
    let mut deck = Deck::new();
    let dealt = deck.deal(20);
    assert_eq!(dealt.len(), 16); // min(20, 16)
    assert_eq!(deck.remaining(), 0); // max(0, 16 - 20)
    let none = deck.deal(5);
    assert_eq!(none.len(), 0);
    assert_eq!(deck.remaining(), 0);
}

#[test]
fn test_deal_zero() {
    let mut deck = Deck::new();
    let dealt = deck.deal(0);
    assert!(dealt.is_empty());
    assert_eq!(deck.remaining(), 16);
}

#[test]
fn test_shuffle_keeps_the_same_cards() {
    let mut deck = Deck::new();
    let mut before = deck.cards.clone();
    deck.shuffle();
    assert_eq!(deck.cards.len(), 16);
    let mut after = deck.cards.clone();
    let key = |c: &Card| (c.id, format!("{:?}", c.card_type));
    before.sort_by_key(key);
    after.sort_by_key(key);
    assert_eq!(before, after);
}

#[test]
fn test_default_deck_is_fresh() {
    let deck = Deck::default();
    assert_eq!(deck.cards, Deck::new().cards);
}
