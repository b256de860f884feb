use liars_table::card::Card;
use liars_table::card::CardType;
use liars_table::game::Game;
use liars_table::game::GameError;
use liars_table::game::LastPlay;
use liars_table::roulette::RouletteResult;

#[test]
fn test_game_creation() {
    let game = Game::new(3, 1).unwrap();
    assert_eq!(game.players.len(), 3);
    assert_eq!(game.current_player, 1);
    assert!(!game.is_started);
}

#[test]
fn test_deal_cards() {
    let mut game = Game::new(3, 1).unwrap();
    game.deal_cards();

    assert!(game.is_started);
    for player in &game.players {
        assert_eq!(player.hand.len(), 5);
    }
    assert_eq!(game.deck.remaining(), 1); // 16 - (3 * 5) = 1
}

#[test]
fn test_play_cards() {
    let mut game = Game::new(2, 1).unwrap();
    game.deal_cards();

    let result = game.play_cards(1, vec![0, 1], CardType::Ace);
    assert!(result.is_ok());
    assert!(game.last_play.is_some());

    let player1 = game.find_player(1).unwrap();
    assert_eq!(player1.hand.len(), 3); // 5 - 2 = 3
}

#[test]
fn test_challenge() {
    let mut game = Game::new(2, 1).unwrap();
    game.deal_cards();

    // Manually set up a scenario
    let cards = vec![
        Card { card_type: CardType::Queen, id: 1 },
        Card { card_type: CardType::King, id: 2 },
    ];
    game.last_play = Some(LastPlay {
        player_id: 1,
        cards: cards.clone(),
        declared_type: CardType::Ace, // Lying!
    });

    let result = game.challenge(2).unwrap();
    assert!(result.is_liar);
    assert_eq!(result.actual_cards, cards);
    assert!(game.last_play.is_none()); // Should be cleared
}

#[test]
fn test_roulette() {
    let mut game = Game::new(2, 6).unwrap(); // All bullets loaded for guaranteed result
    game.deal_cards();

    let result = game.execute_roulette(1);
    assert!(result.is_ok());

    // Player should be eliminated with 6 bullets
    let player1 = game.find_player(1).unwrap();
    assert!(!player1.is_active);
}

#[test]
fn test_winner_detection() {
    let mut game = Game::new(2, 1).unwrap();
    game.deal_cards();

    // No winner initially
    assert!(game.get_winner().is_none());

    // Eliminate player 1
    game.find_player_mut(1).unwrap().eliminate();

    // Player 2 should be winner
    assert_eq!(game.get_winner(), Some(2));
}

#[test]
fn test_advance_turn() {
    let mut game = Game::new(3, 1).unwrap();
    assert_eq!(game.current_player, 1);

    game.advance_turn();
    assert_eq!(game.current_player, 2);

    game.advance_turn();
    assert_eq!(game.current_player, 3);

    game.advance_turn();
    assert_eq!(game.current_player, 1); // Wrap around
}

#[test]
fn test_advance_turn_skips_eliminated() {
    let mut game = Game::new(3, 1).unwrap();
    game.find_player_mut(2).unwrap().eliminate();

    game.advance_turn();
    assert_eq!(game.current_player, 3);
    game.advance_turn();
    assert_eq!(game.current_player, 1);
}

#[test]
fn test_new_rejects_bad_player_count() {
    assert!(matches!(Game::new(1, 1), Err(GameError::InvalidPlayerCount)));
    assert!(matches!(Game::new(4, 1), Err(GameError::InvalidPlayerCount)));
}

#[test]
fn test_new_rejects_bad_bullet_count() {
    assert!(matches!(Game::new(2, 0), Err(GameError::InvalidBulletCount)));
    assert!(matches!(Game::new(2, 7), Err(GameError::InvalidBulletCount)));
}

#[test]
fn test_play_out_of_turn_is_refused() {
    let mut game = Game::new(2, 1).unwrap();
    game.deal_cards();
    let before = game.players[1].hand.clone();

    let result = game.play_cards(2, vec![0], CardType::King);
    assert!(matches!(result, Err(GameError::InvalidCommand)));
    assert_eq!(game.players[1].hand, before);
    assert_eq!(game.current_player, 1);
    assert!(game.last_play.is_none());
}

#[test]
fn test_play_with_bad_positions_is_refused() {
    let mut game = Game::new(2, 1).unwrap();
    game.deal_cards();

    let result = game.play_cards(1, vec![0, 9], CardType::King);
    assert!(matches!(result, Err(GameError::InvalidCardPosition)));
    assert_eq!(game.players[0].hand.len(), 5);
    assert_eq!(game.current_player, 1);
}

#[test]
fn test_play_records_declared_rank_unchecked() {
    let mut game = Game::new(2, 1).unwrap();
    game.deal_cards();

    // The engine records whatever is declared; honesty is judged later.
    game.play_cards(1, vec![0], CardType::Queen).unwrap();
    let lp = game.last_play.as_ref().unwrap();
    assert_eq!(lp.player_id, 1);
    assert_eq!(lp.cards.len(), 1);
    assert_eq!(game.current_player, 2);
}

#[test]
fn test_challenge_without_play_is_refused() {
    let mut game = Game::new(2, 1).unwrap();
    game.deal_cards();
    assert!(matches!(game.challenge(2), Err(GameError::NoLastPlay)));
}

#[test]
fn test_challenge_by_unknown_player_is_refused() {
    let mut game = Game::new(2, 1).unwrap();
    game.deal_cards();
    game.last_play = Some(LastPlay {
        player_id: 1,
        cards: vec![Card { card_type: CardType::Ace, id: 1 }],
        declared_type: CardType::Ace,
    });
    assert!(matches!(game.challenge(9), Err(GameError::PlayerNotFound)));
    assert!(game.last_play.is_some()); // only a resolved challenge consumes it
}

#[test]
fn test_challenge_truthful_play() {
    let mut game = Game::new(2, 1).unwrap();
    game.deal_cards();
    game.last_play = Some(LastPlay {
        player_id: 1,
        cards: vec![
            Card { card_type: CardType::Ace, id: 1 },
            Card { card_type: CardType::Ace, id: 2 },
        ],
        declared_type: CardType::Ace,
    });
    let result = game.challenge(2).unwrap();
    assert!(!result.is_liar);
    assert_eq!(result.target_player, 1);
}

#[test]
fn test_challenge_joker_matches_any_rank() {
    let mut game = Game::new(2, 1).unwrap();
    game.deal_cards();
    game.last_play = Some(LastPlay {
        player_id: 1,
        cards: vec![
            Card { card_type: CardType::Joker, id: 1 },
            Card { card_type: CardType::King, id: 2 },
        ],
        declared_type: CardType::King,
    });
    assert!(!game.challenge(2).unwrap().is_liar);
}

#[test]
fn test_challenge_one_mismatch_is_a_lie() {
    let mut game = Game::new(2, 1).unwrap();
    game.deal_cards();
    game.last_play = Some(LastPlay {
        player_id: 1,
        cards: vec![
            Card { card_type: CardType::King, id: 1 },
            Card { card_type: CardType::Queen, id: 2 },
            Card { card_type: CardType::Joker, id: 1 },
        ],
        declared_type: CardType::King,
    });
    assert!(game.challenge(2).unwrap().is_liar);
}

#[test]
fn test_roulette_on_unknown_or_inactive_target() {
    let mut game = Game::new(2, 6).unwrap();
    game.deal_cards();
    assert!(matches!(game.execute_roulette(5), Err(GameError::PlayerNotFound)));
    game.execute_roulette(2).unwrap();
    assert!(matches!(game.execute_roulette(2), Err(GameError::PlayerNotFound)));
}

#[test]
fn test_elimination_moves_turn_off_the_eliminated() {
    let mut game = Game::new(3, 6).unwrap(); // fully loaded: every draw eliminates
    game.deal_cards();
    assert_eq!(game.current_player, 1);

    let result = game.execute_roulette(1).unwrap();
    assert_eq!(result, RouletteResult::Out);
    assert!(!game.players[0].is_active);
    assert_eq!(game.current_player, 2); // never left on an eliminated player
}

#[test]
fn test_elimination_of_bystander_keeps_turn() {
    let mut game = Game::new(3, 6).unwrap();
    game.deal_cards();
    game.execute_roulette(3).unwrap();
    assert!(!game.players[2].is_active);
    assert_eq!(game.current_player, 1);
}

#[test]
fn test_winner_by_empty_hand() {
    let mut game = Game::new(3, 1).unwrap();
    game.deal_cards();
    game.players[1].hand.clear();
    assert_eq!(game.get_winner(), Some(2));
}

#[test]
fn test_game_error_messages() {
    assert_eq!(
        GameError::InvalidPlayerCount.message(),
        "Invalid player count. Must be 2-3."
    );
    assert_eq!(GameError::NoLastPlay.message(), "No previous play to challenge.");
    assert_eq!(
        GameError::IoError("disk".to_string()).message(),
        "IO Error: disk"
    );
}

#[test]
fn test_full_round_scenario() {
    // End to end: deal, play, challenge a lie, eliminate, declare a winner.
    let mut game = Game::new(2, 6).unwrap();
    game.deal_cards();
    assert_eq!(game.players[0].hand.len(), 5);
    assert_eq!(game.players[1].hand.len(), 5);
    assert_eq!(game.deck.remaining(), 6); // 16 - 10

    game.play_cards(1, vec![0, 1], CardType::Ace).unwrap();
    assert_eq!(game.players[0].hand.len(), 3);
    assert_eq!(game.current_player, 2);

    // Inject a known lying play so the verdict is deterministic.
    game.last_play = Some(LastPlay {
        player_id: 1,
        cards: vec![Card { card_type: CardType::Queen, id: 1 }],
        declared_type: CardType::Ace,
    });
    let verdict = game.challenge(2).unwrap();
    assert!(verdict.is_liar);
    assert!(game.last_play.is_none());

    // A fully loaded cylinder makes the elimination deterministic.
    let outcome = game.execute_roulette(1).unwrap();
    assert_eq!(outcome, RouletteResult::Out);
    assert_eq!(game.get_winner(), Some(2));
}

#[test]
fn test_deal_cards_is_idempotent() {
    let mut game = Game::new(2, 1).unwrap();
    game.deal_cards();
    let hands: Vec<usize> = game.players.iter().map(|p| p.hand.len()).collect();
    let remaining = game.deck.remaining();
    game.deal_cards(); // second deal must change nothing
    let hands_after: Vec<usize> = game.players.iter().map(|p| p.hand.len()).collect();
    assert_eq!(hands, hands_after);
    assert_eq!(game.deck.remaining(), remaining);
}
