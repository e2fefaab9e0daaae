//! Decision-making core of a 15x15 five-in-a-row game: board representation,
//! line-pattern classification, position evaluation, heuristic candidate
//! generation, and depth-limited minimax search with alpha-beta pruning.

pub mod board;
pub mod engine;
pub mod evaluator;
pub mod line;
pub mod minimax;
pub mod models;
pub mod pattern;
pub mod rules;
pub mod types;

pub use board::Board;
pub use engine::AIEngine;
pub use evaluator::PatternEvaluator;
pub use minimax::MinimaxSolver;
pub use models::{GameConfig, SavedGame, SavedMove};
pub use pattern::{Difficulty, Pattern};
pub use rules::RulesValidator;
pub use types::{BoardError, Cell, GameMode, GameStatus, Move, MoveResult, Player, Position};
