//! Plain records exchanged with the surrounding session and storage layers:
//! the saved form of a finished game, its moves, and the session
//! configuration.

use vstd::prelude::*;

verus! {

/// A persisted game: metadata of one finished or suspended session.
#[derive(Debug, Clone)]
pub struct SavedGame {
    pub id: Option<i64>,
    pub name: String,
    pub mode: String,
    pub difficulty: Option<String>,
    pub created_at: i64,
    pub updated_at: i64,
    pub status: String,
    pub winner: Option<String>,
    pub total_moves: i32,
}

/// A persisted move of a saved game.
#[derive(Debug, Clone)]
pub struct SavedMove {
    pub id: Option<i64>,
    pub game_id: i64,
    pub move_number: i32,
    pub player: String,
    pub position_x: i32,
    pub position_y: i32,
    pub timestamp: i64,
}

/// The session configuration as reported to the front end.
#[derive(Debug, Clone)]
pub struct GameConfig {
    pub mode: String,
    pub difficulty: String,
}

} // verus!
