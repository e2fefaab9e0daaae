use gomoku::{Board, Player, Position, RulesValidator};

#[test]
fn detects_horizontal_five() {
    let mut board = Board::new();
    for y in 3..8 {
        board.set(7, y, Player::Black).unwrap();
    }
    let line = RulesValidator::check_five_in_row(&board, &Position { x: 7, y: 5 });
    let line = line.expect("five in a row should be detected");
    assert_eq!(line.len(), 5);
    for (i, pos) in line.iter().enumerate() {
        assert_eq!(*pos, Position { x: 7, y: 3 + i });
    }
}

#[test]
fn detects_vertical_five() {
    let mut board = Board::new();
    for x in 2..7 {
        board.set(x, 9, Player::White).unwrap();
    }
    let line = RulesValidator::check_five_in_row(&board, &Position { x: 4, y: 9 });
    let line = line.expect("five in a column should be detected");
    assert_eq!(line.len(), 5);
    for (i, pos) in line.iter().enumerate() {
        assert_eq!(*pos, Position { x: 2 + i, y: 9 });
    }
}

#[test]
fn detects_diagonal_five() {
    let mut board = Board::new();
    for k in 0..5 {
        board.set(5 + k, 5 + k, Player::Black).unwrap();
    }
    let line = RulesValidator::check_five_in_row(&board, &Position { x: 9, y: 9 });
    let line = line.expect("diagonal five should be detected");
    assert_eq!(line.len(), 5);
    for (i, pos) in line.iter().enumerate() {
        assert_eq!(*pos, Position { x: 5 + i, y: 5 + i });
    }
}

#[test]
fn detects_anti_diagonal_five() {
    let mut board = Board::new();
    for k in 0..5 {
        board.set(4 + k, 10 - k, Player::White).unwrap();
    }
    let line = RulesValidator::check_five_in_row(&board, &Position { x: 6, y: 8 });
    assert!(line.is_some());
    assert_eq!(line.unwrap().len(), 5);
}

#[test]
fn longer_run_reports_the_whole_line() {
    let mut board = Board::new();
    for y in 3..9 {
        board.set(7, y, Player::Black).unwrap();
    }
    let line = RulesValidator::check_five_in_row(&board, &Position { x: 7, y: 5 }).unwrap();
    assert_eq!(line.len(), 6);
}

#[test]
fn four_in_a_row_is_no_win() {
    let mut board = Board::new();
    for y in 3..7 {
        board.set(7, y, Player::Black).unwrap();
    }
    assert!(RulesValidator::check_five_in_row(&board, &Position { x: 7, y: 5 }).is_none());
}

#[test]
fn empty_or_out_of_bounds_cell_is_no_win() {
    let board = Board::new();
    assert!(RulesValidator::check_five_in_row(&board, &Position { x: 7, y: 7 }).is_none());
    assert!(RulesValidator::check_five_in_row(&board, &Position { x: 15, y: 7 }).is_none());
}

#[test]
fn mixed_colours_break_the_run() {
    let mut board = Board::new();
    board.set(7, 3, Player::Black).unwrap();
    board.set(7, 4, Player::Black).unwrap();
    board.set(7, 5, Player::White).unwrap();
    board.set(7, 6, Player::Black).unwrap();
    board.set(7, 7, Player::Black).unwrap();
    assert!(RulesValidator::check_five_in_row(&board, &Position { x: 7, y: 4 }).is_none());
}

#[test]
fn draw_is_exactly_a_full_board() {
    let mut board = Board::new();
    assert!(!RulesValidator::is_draw(&board));
    for x in 0..15 {
        for y in 0..15 {
            let player = if (x / 2 + y) % 2 == 0 { Player::Black } else { Player::White };
            board.set(x, y, player).unwrap();
        }
    }
    assert!(RulesValidator::is_draw(&board));
}
