use gomoku::{Board, Difficulty, Pattern, PatternEvaluator, Player};

#[test]
fn pattern_scores_are_fixed() {
    assert_eq!(Pattern::Five.score(), 100000);
    assert_eq!(Pattern::LiveFour.score(), 10000);
    assert_eq!(Pattern::DeadFour.score(), 1000);
    assert_eq!(Pattern::LiveThree.score(), 500);
    assert_eq!(Pattern::DeadThree.score(), 100);
    assert_eq!(Pattern::LiveTwo.score(), 50);
    assert_eq!(Pattern::DeadTwo.score(), 10);
}

#[test]
fn difficulty_depths_and_caps() {
    assert_eq!(Difficulty::Easy.search_depth(), 2);
    assert_eq!(Difficulty::Medium.search_depth(), 4);
    assert_eq!(Difficulty::Hard.search_depth(), 6);
    assert_eq!(Difficulty::Easy.max_candidates(), 10);
    assert_eq!(Difficulty::Medium.max_candidates(), 15);
    assert_eq!(Difficulty::Hard.max_candidates(), 20);
}

#[test]
fn opponent_is_an_involution() {
    assert_eq!(Player::Black.opponent(), Player::White);
    assert_eq!(Player::White.opponent(), Player::Black);
    assert_eq!(Player::Black.opponent().opponent(), Player::Black);
    assert_eq!(Player::White.opponent().opponent(), Player::White);
}

#[test]
fn run_of_five_classifies_as_five_even_when_blocked() {
    let mut board = Board::new();
    // Five black stones walled in by white on both ends.
    board.set(7, 2, Player::White).unwrap();
    for y in 3..8 {
        board.set(7, y, Player::Black).unwrap();
    }
    board.set(7, 8, Player::White).unwrap();
    let patterns = PatternEvaluator::detect_patterns_at(&board, 7, 5, Player::Black);
    assert!(patterns.contains(&Pattern::Five));
}

#[test]
fn run_of_four_with_open_ends_classifies_as_live_four() {
    let mut board = Board::new();
    for y in 3..7 {
        board.set(7, y, Player::Black).unwrap();
    }
    let patterns = PatternEvaluator::detect_patterns_at(&board, 7, 4, Player::Black);
    assert!(patterns.contains(&Pattern::LiveFour));
    assert_eq!(Pattern::LiveFour.score(), 10000);
}

#[test]
fn run_of_four_with_one_open_end_classifies_as_dead_four() {
    let mut board = Board::new();
    board.set(7, 2, Player::White).unwrap();
    for y in 3..7 {
        board.set(7, y, Player::Black).unwrap();
    }
    let patterns = PatternEvaluator::detect_patterns_at(&board, 7, 4, Player::Black);
    assert!(patterns.contains(&Pattern::DeadFour));
    assert!(!patterns.contains(&Pattern::LiveFour));
}

#[test]
fn run_of_four_with_both_ends_blocked_yields_no_pattern() {
    let mut board = Board::new();
    board.set(7, 2, Player::White).unwrap();
    for y in 3..7 {
        board.set(7, y, Player::Black).unwrap();
    }
    board.set(7, 7, Player::White).unwrap();
    let patterns = PatternEvaluator::detect_patterns_at(&board, 7, 4, Player::Black);
    assert!(!patterns.contains(&Pattern::LiveFour));
    assert!(!patterns.contains(&Pattern::DeadFour));
    assert!(!patterns.contains(&Pattern::Five));
}

#[test]
fn isolated_stone_forms_no_pattern() {
    let mut board = Board::new();
    board.set(7, 7, Player::Black).unwrap();
    let patterns = PatternEvaluator::detect_patterns_at(&board, 7, 7, Player::Black);
    assert!(patterns.is_empty());
}
