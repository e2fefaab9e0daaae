//! Core value types: players, cells, coordinates, and the game-level enums
//! shared with the surrounding session layer.

use vstd::prelude::*;

verus! {

/// One of the two players.
#[derive(Debug, Clone, Copy, PartialEq, Eq, Structural)]
pub enum Player {
    Black,
    White,
}

/// The opposing player.
pub open spec fn opponent_of(p: Player) -> Player {
    match p {
        Player::Black => Player::White,
        Player::White => Player::Black,
    }
}

impl Player {
    /// Total, involution-symmetric opponent mapping.
    pub fn opponent(&self) -> (r: Player)
        ensures
            r == opponent_of(*self),
    {
        match self {
            Player::Black => Player::White,
            Player::White => Player::Black,
        }
    }
}

/// Swapping sides twice yields the original player.
pub proof fn lemma_opponent_involution(p: Player)
    ensures
        opponent_of(opponent_of(p)) == p,
{
}

/// The content of one board cell.
#[derive(Debug, Clone, Copy, PartialEq, Eq, Structural)]
pub enum Cell {
    Empty,
    Black,
    White,
}

/// A coordinate pair on the board.
#[derive(Debug, Clone, Copy, PartialEq, Eq, Structural)]
pub struct Position {
    pub x: usize,
    pub y: usize,
}

/// A stone placed by a player.
#[derive(Debug, Clone, Copy, PartialEq, Eq, Structural)]
pub struct Move {
    pub position: Position,
    pub player: Player,
}

/// Overall progress of a game.
#[derive(Debug, Clone, Copy, PartialEq, Eq, Structural)]
pub enum GameStatus {
    Idle,
    InProgress,
    BlackWin,
    WhiteWin,
    Draw,
}

/// Outcome of applying one move.
#[derive(Debug, Clone)]
pub struct MoveResult {
    pub success: bool,
    pub game_status: GameStatus,
    pub winning_line: Option<Vec<Position>>,
}

/// Player-versus-player or player-versus-engine.
#[derive(Debug, Clone, Copy, PartialEq, Eq, Structural)]
pub enum GameMode {
    PvP,
    PvE,
}

/// Failures of the bounds-checked board accessors.
#[derive(Debug, Clone, Copy, PartialEq, Eq, Structural)]
pub enum BoardError {
    OutOfBounds,
    CellOccupied,
}

} // verus!
