use gomoku::{Board, Cell, PatternEvaluator, Player};

#[test]
fn empty_board_scores_zero_for_both_viewpoints() {
    let board = Board::new();
    assert_eq!(PatternEvaluator::evaluate_board(&board, Player::Black), 0);
    assert_eq!(PatternEvaluator::evaluate_board(&board, Player::White), 0);
}

#[test]
fn isolated_stone_scores_zero() {
    let mut board = Board::new();
    board.set(7, 7, Player::Black).unwrap();
    assert_eq!(PatternEvaluator::evaluate_board(&board, Player::Black), 0);
    assert_eq!(PatternEvaluator::evaluate_board(&board, Player::White), 0);
}

#[test]
fn live_two_scores_fifty_per_stone_with_defensive_weight() {
    let mut board = Board::new();
    board.set(7, 7, Player::Black).unwrap();
    board.set(7, 8, Player::Black).unwrap();
    // Each stone carries one LiveTwo (50); the opposing viewpoint subtracts
    // the 11/10 defensive weight.
    assert_eq!(PatternEvaluator::evaluate_board(&board, Player::Black), 100);
    assert_eq!(PatternEvaluator::evaluate_board(&board, Player::White), -110);
}

#[test]
fn live_four_scores_ten_thousand_per_stone() {
    let mut board = Board::new();
    for y in 3..7 {
        board.set(7, y, Player::Black).unwrap();
    }
    assert_eq!(PatternEvaluator::evaluate_board(&board, Player::Black), 40000);
    assert_eq!(PatternEvaluator::evaluate_board(&board, Player::White), -44000);
}

#[test]
fn blocked_five_still_scores_as_five() {
    let mut board = Board::new();
    board.set(7, 2, Player::White).unwrap();
    for y in 3..8 {
        board.set(7, y, Player::Black).unwrap();
    }
    board.set(7, 8, Player::White).unwrap();
    assert_eq!(PatternEvaluator::evaluate_board(&board, Player::Black), 500000);
}

fn place_cells(cells: &[(usize, usize, Player)]) -> Board {
    let mut board = Board::new();
    for (x, y, player) in cells {
        board.set(*x, *y, *player).unwrap();
    }
    board
}

#[test]
fn evaluation_is_symmetric_under_left_right_mirroring() {
    let stones = [
        (3, 2, Player::Black),
        (3, 3, Player::Black),
        (3, 4, Player::Black),
        (4, 5, Player::White),
        (5, 5, Player::White),
        (9, 0, Player::White),
    ];
    let board = place_cells(&stones);
    let mirrored: Vec<(usize, usize, Player)> =
        stones.iter().map(|(x, y, p)| (*x, 14 - *y, *p)).collect();
    let mirror = place_cells(&mirrored);
    assert_eq!(
        PatternEvaluator::evaluate_board(&board, Player::Black),
        PatternEvaluator::evaluate_board(&mirror, Player::Black),
    );
    assert_eq!(
        PatternEvaluator::evaluate_board(&board, Player::White),
        PatternEvaluator::evaluate_board(&mirror, Player::White),
    );
}

#[test]
fn evaluation_is_symmetric_under_swapping_players() {
    let stones = [
        (3, 2, Player::Black),
        (3, 3, Player::Black),
        (3, 4, Player::Black),
        (4, 5, Player::White),
        (5, 5, Player::White),
        (12, 12, Player::White),
    ];
    let board = place_cells(&stones);
    let swapped: Vec<(usize, usize, Player)> =
        stones.iter().map(|(x, y, p)| (*x, *y, p.opponent())).collect();
    let swap = place_cells(&swapped);
    assert_eq!(
        PatternEvaluator::evaluate_board(&board, Player::Black),
        PatternEvaluator::evaluate_board(&swap, Player::White),
    );
    assert_eq!(
        PatternEvaluator::evaluate_board(&board, Player::White),
        PatternEvaluator::evaluate_board(&swap, Player::Black),
    );
}

#[test]
fn cells_read_back_their_owner() {
    let mut board = Board::new();
    board.set(0, 0, Player::Black).unwrap();
    board.set(14, 14, Player::White).unwrap();
    assert_eq!(board.get(0, 0), Ok(Cell::Black));
    assert_eq!(board.get(14, 14), Ok(Cell::White));
}
