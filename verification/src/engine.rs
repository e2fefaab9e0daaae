//! The engine facade: binds a difficulty to a search depth and exposes
//! "best move for this board and side".

use vstd::prelude::*;

verus! {

use crate::board::{board_full, board_wf};
use crate::board::Board;
use crate::minimax::{candidate_moves, is_candidate, mm_move};
use crate::minimax::MinimaxSolver;
use crate::pattern::depth_of;
use crate::pattern::Difficulty;
use crate::types::{Player, Position};

/// The adversarial search engine configured with a difficulty level.
pub struct AIEngine {
    difficulty: Difficulty,
}

impl AIEngine {
    /// The configured difficulty.
    pub closed spec fn difficulty(&self) -> Difficulty {
        self.difficulty
    }

    /// An engine at the given difficulty.
    pub fn new(difficulty: Difficulty) -> (e: AIEngine)
        ensures
            e.difficulty() == difficulty,
    {
        AIEngine { difficulty }
    }

    /// The best move for `player` on this board: the unpruned-minimax choice
    /// at this difficulty's depth, found by alpha-beta search over the full
    /// window. `None` exactly on a full board or when no candidate cell
    /// exists (in particular on an empty board, where the caller must seed
    /// an opening move itself).
    pub fn get_best_move(&self, board: &Board, player: Player) -> (r: Option<Position>)
        requires
            board_wf(board@),
        ensures
            r == mm_move(board@, depth_of(self.difficulty()), true, player),
            board_full(board@) ==> r is None,
            (r is Some) <==> (!board_full(board@) && candidate_moves(board@, 20).len() > 0),
            r matches Some(p) ==> is_candidate(board@, p.x as int, p.y as int),
    {
        let depth = self.difficulty.search_depth();
        let (_, best) = MinimaxSolver::minimax(board, depth, i32::MIN, i32::MAX, true, player);
        best
    }

    /// Reconfigures the difficulty; takes effect on the next search.
    pub fn set_difficulty(&mut self, difficulty: Difficulty)
        ensures
            final(self).difficulty() == difficulty,
    {
        self.difficulty = difficulty;
    }
}

} // verus!
