use gomoku::{
    GameConfig, GameMode, GameStatus, Move, MoveResult, Player, Position, SavedGame, SavedMove,
};

#[test]
fn saved_game_round_trips_its_fields() {
    let game = SavedGame {
        id: Some(3),
        name: String::from("evening match"),
        mode: String::from("pve"),
        difficulty: Some(String::from("hard")),
        created_at: 1700000000,
        updated_at: 1700000100,
        status: String::from("black_win"),
        winner: Some(String::from("black")),
        total_moves: 42,
    };
    assert_eq!(game.id, Some(3));
    assert_eq!(game.mode, "pve");
    assert_eq!(game.total_moves, 42);
    assert_eq!(game.winner.as_deref(), Some("black"));
}

#[test]
fn saved_move_round_trips_its_fields() {
    let saved = SavedMove {
        id: None,
        game_id: 3,
        move_number: 1,
        player: String::from("black"),
        position_x: 7,
        position_y: 7,
        timestamp: 1700000000,
    };
    assert_eq!(saved.game_id, 3);
    assert_eq!(saved.player, "black");
    assert_eq!((saved.position_x, saved.position_y), (7, 7));
}

#[test]
fn session_values_hold_their_shape() {
    let config = GameConfig { mode: String::from("pvp"), difficulty: String::from("medium") };
    assert_eq!(config.mode, "pvp");
    let mv = Move { position: Position { x: 7, y: 7 }, player: Player::Black };
    assert_eq!(mv.position, Position { x: 7, y: 7 });
    assert_eq!(mv.player, Player::Black);
    let result = MoveResult {
        success: true,
        game_status: GameStatus::InProgress,
        winning_line: None,
    };
    assert!(result.success);
    assert!(matches!(result.game_status, GameStatus::InProgress));
    assert!(result.winning_line.is_none());
    assert!(matches!(GameMode::PvE, GameMode::PvE));
    assert!(matches!(GameStatus::Idle, GameStatus::Idle));
    assert!(matches!(GameStatus::Draw, GameStatus::Draw));
}
