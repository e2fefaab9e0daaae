use gomoku::{AIEngine, Board, Difficulty, MinimaxSolver, PatternEvaluator, Player, Position};

#[test]
fn candidate_generation_on_empty_board_is_empty() {
    let board = Board::new();
    let candidates = MinimaxSolver::generate_candidate_moves(&board, 20);
    assert!(candidates.is_empty());
}

#[test]
fn candidates_surround_a_lone_stone() {
    let mut board = Board::new();
    board.set(7, 7, Player::Black).unwrap();
    let candidates = MinimaxSolver::generate_candidate_moves(&board, 20);
    // 24 cells lie within distance 2 of the stone; the cap keeps 20.
    assert_eq!(candidates.len(), 20);
    for pos in &candidates {
        assert!(board.is_empty(pos.x, pos.y));
        let dx = (pos.x as i32 - 7).abs();
        let dy = (pos.y as i32 - 7).abs();
        assert!(dx <= 2 && dy <= 2);
        assert!(dx + dy > 0);
    }
    // Ties in the crowding weight keep row-major order: of the four
    // adjacent cells weighted 13, (6, 7) comes first.
    assert_eq!(candidates[0], Position { x: 6, y: 7 });
}

#[test]
fn candidate_cap_is_respected() {
    let mut board = Board::new();
    board.set(7, 7, Player::Black).unwrap();
    let candidates = MinimaxSolver::generate_candidate_moves(&board, 5);
    assert_eq!(candidates.len(), 5);
}

#[test]
fn engine_finds_the_winning_fifth_cell() {
    let mut board = Board::new();
    // Black has four in a row with the fifth cell open at (7, 7); the other
    // end is blocked by white.
    board.set(7, 2, Player::White).unwrap();
    for y in 3..7 {
        board.set(7, y, Player::Black).unwrap();
    }
    board.set(3, 3, Player::White).unwrap();
    board.set(3, 4, Player::White).unwrap();
    board.set(11, 11, Player::White).unwrap();
    for difficulty in [Difficulty::Easy, Difficulty::Medium] {
        let engine = AIEngine::new(difficulty);
        let best = engine.get_best_move(&board, Player::Black);
        assert_eq!(best, Some(Position { x: 7, y: 7 }));
    }
}

#[test]
fn best_move_on_a_full_board_is_unavailable() {
    let mut board = Board::new();
    for x in 0..15 {
        for y in 0..15 {
            let player = if (x / 3 + y) % 2 == 0 { Player::Black } else { Player::White };
            board.set(x, y, player).unwrap();
        }
    }
    let engine = AIEngine::new(Difficulty::Easy);
    assert_eq!(engine.get_best_move(&board, Player::Black), None);
    assert_eq!(engine.get_best_move(&board, Player::White), None);
}

#[test]
fn best_move_on_an_empty_board_is_unavailable() {
    let board = Board::new();
    let engine = AIEngine::new(Difficulty::Hard);
    assert_eq!(engine.get_best_move(&board, Player::Black), None);
}

#[test]
fn reconfiguring_difficulty_changes_the_depth_used() {
    let mut engine = AIEngine::new(Difficulty::Easy);
    engine.set_difficulty(Difficulty::Medium);
    let mut board = Board::new();
    board.set(7, 7, Player::Black).unwrap();
    board.set(7, 8, Player::White).unwrap();
    assert!(engine.get_best_move(&board, Player::Black).is_some());
}

#[test]
fn search_on_empty_board_returns_neutral_score_and_no_move() {
    let board = Board::new();
    let (score, best) = MinimaxSolver::minimax(&board, 2, i32::MIN, i32::MAX, true, Player::Black);
    assert_eq!(score, 0);
    assert_eq!(best, None);
}

/// Reference unpruned exhaustive minimax built from the library's own public
/// pieces: same candidates, same evaluator, no alpha-beta window.
fn exhaustive_minimax(board: &Board, depth: u8, maximizing: bool, player: Player) -> i32 {
    if depth == 0 || board.is_full() {
        return PatternEvaluator::evaluate_board(board, player);
    }
    let candidates = MinimaxSolver::generate_candidate_moves(board, 20);
    if candidates.is_empty() {
        return 0;
    }
    let mover = if maximizing { player } else { player.opponent() };
    let mut best: Option<i32> = None;
    for pos in candidates {
        let mut child = board.duplicate();
        child.set(pos.x, pos.y, mover).unwrap();
        let value = exhaustive_minimax(&child, depth - 1, !maximizing, player);
        best = Some(match best {
            None => value,
            Some(b) => {
                if maximizing {
                    b.max(value)
                } else {
                    b.min(value)
                }
            },
        });
    }
    best.unwrap()
}

#[test]
fn pruned_search_agrees_with_exhaustive_minimax() {
    let mut board = Board::new();
    board.set(7, 7, Player::Black).unwrap();
    board.set(7, 8, Player::White).unwrap();
    board.set(8, 7, Player::Black).unwrap();
    for maximizing in [true, false] {
        for player in [Player::Black, Player::White] {
            let (pruned, _) =
                MinimaxSolver::minimax(&board, 2, i32::MIN, i32::MAX, maximizing, player);
            let unpruned = exhaustive_minimax(&board, 2, maximizing, player);
            assert_eq!(pruned, unpruned);
        }
    }
}
