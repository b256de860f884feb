use liars_table::config::ConfigError;
use liars_table::config::GameConfig;
use liars_table::config::Player;

#[test]
fn test_default_config() {
    let config = GameConfig::default();
    assert_eq!(config.language, "ja");
    assert_eq!(config.bullet_capacity, 6);
    assert_eq!(config.players.len(), 3);
    assert_eq!(config.current_turn, 1);
}

#[test]
fn test_config_validation() {
    let mut config = GameConfig::default();

    assert!(config.validate().is_ok());

    config.bullet_capacity = 0;
    assert!(config.validate().is_err());

    config.bullet_capacity = 15;
    assert!(config.validate().is_err());
}

#[test]
fn test_player_management() {
    let mut config = GameConfig::default();

    assert!(
        config
            .change_player_name(1, "テスト太郎".to_string())
            .is_ok()
    );
    assert_eq!(config.get_player(1).unwrap().name, "テスト太郎");

    assert!(config.eliminate_player(1).is_ok());
    assert!(!config.get_player(1).unwrap().is_active);

    assert_eq!(config.active_player_count(), 2);
}

#[test]
fn test_turn_management() {
    let mut config = GameConfig::default();

    assert_eq!(config.current_turn, 1);

    config.next_turn();
    assert_eq!(config.current_turn, 2);

    config.next_turn();
    assert_eq!(config.current_turn, 3);

    config.next_turn();
    assert_eq!(config.current_turn, 1);
}

#[test]
fn test_validation_rejects_duplicate_ids() {
    let mut config = GameConfig::default();
    config.players[2].id = 1;
    assert_eq!(config.validate(), Err(ConfigError::DuplicatePlayerId(1)));
}

#[test]
fn test_validation_rejects_blank_and_long_names() {
    let mut config = GameConfig::default();
    config.players[1].name = "   ".to_string();
    assert_eq!(config.validate(), Err(ConfigError::BlankPlayerName(2)));

    config.players[1].name = "abcdefghijklmnopqrstu".to_string(); // 21 characters
    assert_eq!(config.validate(), Err(ConfigError::PlayerNameTooLong(2)));
}

#[test]
fn test_validation_rejects_inactive_turn_holder() {
    let mut config = GameConfig::default();
    config.players[0].is_active = false;
    assert_eq!(config.validate(), Err(ConfigError::CurrentTurnNotActive));
}

#[test]
fn test_validation_rejects_empty_and_oversized_rosters() {
    let mut config = GameConfig::default();
    config.players.clear();
    assert_eq!(config.validate(), Err(ConfigError::NoPlayers));

    let mut big = GameConfig::default();
    for id in 4..=7 {
        big.players.push(Player {
            id,
            name: format!("Player {}", id),
            is_active: false,
        });
    }
    assert_eq!(big.validate(), Err(ConfigError::TooManyPlayers));
}

#[test]
fn test_change_player_name_trims_and_checks() {
    let mut config = GameConfig::default();
    config.change_player_name(2, "  Alice  ".to_string()).unwrap();
    assert_eq!(config.get_player(2).unwrap().name, "Alice");

    assert_eq!(
        config.change_player_name(2, " \t ".to_string()),
        Err(ConfigError::BlankPlayerName(2))
    );
    assert_eq!(
        config.change_player_name(9, "Bob".to_string()),
        Err(ConfigError::PlayerNotFound(9))
    );
}

#[test]
fn test_eliminating_turn_holder_advances_turn() {
    let mut config = GameConfig::default();
    assert_eq!(config.current_turn, 1);
    config.eliminate_player(1).unwrap();
    assert_eq!(config.current_turn, 2);

    // Rotation now cycles over the two survivors.
    config.next_turn();
    assert_eq!(config.current_turn, 3);
    config.next_turn();
    assert_eq!(config.current_turn, 2);
}

#[test]
fn test_set_participant_count() {
    let mut config = GameConfig::default();
    config.eliminate_player(3).unwrap();
    config.set_participant_count(2).unwrap();
    assert_eq!(config.participant_count, 2);
    assert!(config.get_player(1).unwrap().is_active);
    assert!(config.get_player(2).unwrap().is_active);
    assert!(!config.get_player(3).unwrap().is_active);

    assert_eq!(
        config.set_participant_count(5),
        Err(ConfigError::InvalidParticipantCount(5))
    );
}

#[test]
fn test_participant_count_reclaims_stray_turn() {
    let mut config = GameConfig::default();
    config.current_turn = 3;
    config.set_participant_count(2).unwrap();
    assert_eq!(config.current_turn, 1);
}

#[test]
fn test_check_winner_and_reset() {
    let mut config = GameConfig::default();
    assert!(config.check_winner().is_none());

    config.eliminate_player(2).unwrap();
    config.eliminate_player(3).unwrap();
    let winner_id = config.check_winner().unwrap().id;
    assert_eq!(winner_id, 1);

    config.mark_game_completed();
    assert!(config.game_completed);

    config.reset_game();
    assert!(!config.game_completed);
    assert_eq!(config.current_turn, 1);
    assert_eq!(config.active_player_count(), 3);
}

#[test]
fn test_active_players_respects_participant_range() {
    let mut config = GameConfig::default();
    config.players.push(Player {
        id: 4,
        name: "Player 4".to_string(),
        is_active: true,
    });
    // Participant range still covers ids 1..=3 only.
    let ids: Vec<u8> = config.active_players().iter().map(|p| p.id).collect();
    assert_eq!(ids, vec![1, 2, 3]);
    assert_eq!(config.active_player_count(), 4);
}
