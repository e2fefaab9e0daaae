use gomoku::{Board, BoardError, Cell, Player};

#[test]
fn new_board_is_empty() {
    let board = Board::new();
    for x in 0..15 {
        for y in 0..15 {
            assert_eq!(board.get(x, y), Ok(Cell::Empty));
        }
    }
    assert_eq!(board.count_pieces(), 0);
    assert!(!board.is_full());
}

#[test]
fn get_rejects_out_of_bounds() {
    let board = Board::new();
    assert_eq!(board.get(15, 0), Err(BoardError::OutOfBounds));
    assert_eq!(board.get(0, 15), Err(BoardError::OutOfBounds));
    assert_eq!(board.get(15, 15), Err(BoardError::OutOfBounds));
    assert_eq!(board.get(100, 3), Err(BoardError::OutOfBounds));
}

#[test]
fn set_rejects_out_of_bounds_without_mutation() {
    let mut board = Board::new();
    assert_eq!(board.set(15, 3, Player::Black), Err(BoardError::OutOfBounds));
    assert_eq!(board.set(3, 15, Player::Black), Err(BoardError::OutOfBounds));
    assert_eq!(board.count_pieces(), 0);
}

#[test]
fn set_then_get_returns_placed_stone() {
    let mut board = Board::new();
    assert_eq!(board.set(7, 7, Player::Black), Ok(()));
    assert_eq!(board.get(7, 7), Ok(Cell::Black));
    assert_eq!(board.set(0, 14, Player::White), Ok(()));
    assert_eq!(board.get(0, 14), Ok(Cell::White));
    assert_eq!(board.count_pieces(), 2);
}

#[test]
fn set_on_occupied_cell_fails_and_leaves_cell_unchanged() {
    let mut board = Board::new();
    assert_eq!(board.set(4, 4, Player::Black), Ok(()));
    assert_eq!(board.set(4, 4, Player::White), Err(BoardError::CellOccupied));
    assert_eq!(board.get(4, 4), Ok(Cell::Black));
    assert_eq!(board.set(4, 4, Player::Black), Err(BoardError::CellOccupied));
    assert_eq!(board.get(4, 4), Ok(Cell::Black));
}

#[test]
fn is_empty_reads_false_out_of_bounds() {
    let mut board = Board::new();
    assert!(board.is_empty(3, 3));
    board.set(3, 3, Player::White).unwrap();
    assert!(!board.is_empty(3, 3));
    assert!(!board.is_empty(15, 0));
    assert!(!board.is_empty(0, 15));
}

#[test]
fn clear_cell_resets_regardless_of_content() {
    let mut board = Board::new();
    board.set(2, 9, Player::Black).unwrap();
    assert_eq!(board.clear_cell(2, 9), Ok(()));
    assert_eq!(board.get(2, 9), Ok(Cell::Empty));
    assert_eq!(board.clear_cell(2, 9), Ok(()));
    assert_eq!(board.clear_cell(15, 9), Err(BoardError::OutOfBounds));
}

#[test]
fn clear_empties_the_whole_board() {
    let mut board = Board::new();
    board.set(1, 1, Player::Black).unwrap();
    board.set(2, 2, Player::White).unwrap();
    board.clear();
    assert_eq!(board.count_pieces(), 0);
    assert_eq!(board.get(1, 1), Ok(Cell::Empty));
}

#[test]
fn full_board_is_full() {
    let mut board = Board::new();
    for x in 0..15 {
        for y in 0..15 {
            let player = if (x + y) % 2 == 0 { Player::Black } else { Player::White };
            board.set(x, y, player).unwrap();
        }
    }
    assert_eq!(board.count_pieces(), 225);
    assert!(board.is_full());
}

#[test]
fn duplicate_is_a_deep_independent_copy() {
    let mut board = Board::new();
    board.set(5, 5, Player::Black).unwrap();
    let mut copy = board.duplicate();
    assert_eq!(copy.get(5, 5), Ok(Cell::Black));
    copy.set(6, 6, Player::White).unwrap();
    assert_eq!(board.get(6, 6), Ok(Cell::Empty));
    assert_eq!(copy.get(6, 6), Ok(Cell::White));
}

#[test]
fn default_board_is_empty() {
    let board = Board::default();
    assert_eq!(board.count_pieces(), 0);
}
