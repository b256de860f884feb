use liars_table::card::Card;
use liars_table::card::CardType;
use liars_table::player::Player;

#[test]
fn test_player_creation() {
    let player = Player::new(1);
    assert_eq!(player.id, 1);
    assert_eq!(player.name, "Player 1");
    assert!(player.hand.is_empty());
    assert!(player.is_active);
}

#[test]
fn test_add_cards() {
    let mut player = Player::new(1);
    let cards = vec![
        Card { card_type: CardType::Ace, id: 1 },
        Card { card_type: CardType::Queen, id: 2 },
    ];

    player.add_cards(cards);
    assert_eq!(player.hand.len(), 2);
}

#[test]
fn test_remove_cards() {
    let mut player = Player::new(1);
    let cards = vec![
        Card { card_type: CardType::Ace, id: 1 },
        Card { card_type: CardType::Queen, id: 2 },
        Card { card_type: CardType::King, id: 3 },
    ];
    player.add_cards(cards);

    let removed = player.remove_cards(&[0, 2]).unwrap();
    assert_eq!(removed.len(), 2);
    assert_eq!(removed[0].card_type, CardType::Ace);
    assert_eq!(removed[1].card_type, CardType::King);
    assert_eq!(player.hand.len(), 1);
    assert_eq!(player.hand[0].card_type, CardType::Queen);
}

#[test]
fn test_remove_invalid_position() {
    let mut player = Player::new(1);
    let cards = vec![Card { card_type: CardType::Ace, id: 1 }];
    player.add_cards(cards);

    let result = player.remove_cards(&[1]);
    assert!(result.is_err());
}

#[test]
fn test_eliminate() {
    let mut player = Player::new(1);
    assert!(player.is_active);

    player.eliminate();
    assert!(!player.is_active);
}

#[test]
fn test_has_won() {
    // A player wins exactly when still active with an empty hand.
    let mut player = Player::new(1);

    let cards = vec![Card { card_type: CardType::Ace, id: 1 }];
    player.add_cards(cards);
    assert!(!player.has_won()); // Has cards

    player.remove_cards(&[0]).unwrap();
    assert!(player.has_won()); // No cards and active

    player.eliminate();
    assert!(!player.has_won()); // No cards but eliminated
}

#[test]
fn test_player_name_rendering() {
    assert_eq!(Player::new(7).name, "Player 7");
    assert_eq!(Player::new(42).name, "Player 42");
    assert_eq!(Player::new(255).name, "Player 255");
}

#[test]
fn test_remove_cards_keeps_orders() {
    let mut player = Player::new(1);
    let cards = vec![
        Card { card_type: CardType::Ace, id: 1 },
        Card { card_type: CardType::Queen, id: 2 },
        Card { card_type: CardType::King, id: 3 },
        Card { card_type: CardType::Joker, id: 4 },
        Card { card_type: CardType::Ace, id: 2 },
    ];
    player.add_cards(cards.clone());

    // Positions given out of order still come back in hand order,
    // and the remainder keeps its relative order.
    let removed = player.remove_cards(&[3, 0, 1]).unwrap();
    assert_eq!(removed, vec![cards[0], cards[1], cards[3]]);
    assert_eq!(player.hand, vec![cards[2], cards[4]]);
}

#[test]
fn test_remove_cards_failure_leaves_hand_unchanged() {
    let mut player = Player::new(1);
    let cards = vec![
        Card { card_type: CardType::Ace, id: 1 },
        Card { card_type: CardType::Queen, id: 2 },
    ];
    player.add_cards(cards.clone());

    let result = player.remove_cards(&[0, 5]);
    assert!(result.is_err());
    assert_eq!(player.hand, cards);
}

#[test]
fn test_remove_cards_rejects_repeated_positions() {
    let mut player = Player::new(1);
    let cards = vec![
        Card { card_type: CardType::Ace, id: 1 },
        Card { card_type: CardType::Queen, id: 2 },
    ];
    player.add_cards(cards.clone());

    let result = player.remove_cards(&[0, 0]);
    assert!(result.is_err());
    assert_eq!(player.hand, cards);
}

#[test]
fn test_cards_count() {
    let mut player = Player::new(3);
    assert_eq!(player.cards_count(), 0);
    player.add_cards(vec![Card { card_type: CardType::King, id: 1 }]);
    assert_eq!(player.cards_count(), 1);
}
