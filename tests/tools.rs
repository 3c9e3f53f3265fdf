use ricochet_solver::{
    board_with_pieces, cell_sign, direction_label, piece_label, pos_to_x, pos_to_y,
    puzzle_from_string, xy_to_pos, BoardPiece, Direction, PieceType,
};

#[test]
fn packs_and_unpacks_positions() {
    let p = xy_to_pos(3, 5);
    assert_eq!(p, 0x35);
    assert_eq!(pos_to_x(&p), 3);
    assert_eq!(pos_to_y(&p), 5);
    let q = xy_to_pos(15, 15);
    assert_eq!(q, 255);
    assert_eq!(pos_to_x(&q), 15);
    assert_eq!(pos_to_y(&q), 15);
    assert_eq!(xy_to_pos(0, 0), 0);
}

#[test]
fn reads_puzzle_line() {
    let line = "board:8:6:main_robot:1:2:goal:2:4:helper_robot:7:0:helper_robot:7:1:blocker:3:3";
    let (board, state) = puzzle_from_string(line).unwrap();
    assert_eq!(board.len(), 6);
    assert!(board.iter().all(|row| row.len() == 8));
    assert_eq!(board[2][1], BoardPiece::Start);
    assert_eq!(board[4][2], BoardPiece::Goal);
    assert_eq!(board[3][3], BoardPiece::Blocker);
    assert_eq!(board[0][0], BoardPiece::Empty);
    assert_eq!(state, (xy_to_pos(1, 2), xy_to_pos(7, 1), xy_to_pos(7, 0), 0));
}

#[test]
fn skips_unknown_chunks() {
    let (board, state) = puzzle_from_string("size:2:3:note:9:9:goal:1:2").unwrap();
    assert_eq!(board.len(), 3);
    assert_eq!(board[2][1], BoardPiece::Goal);
    assert_eq!(state, (0, 0, 0, 0));
}

#[test]
fn rejects_malformed_lines() {
    assert!(puzzle_from_string("").is_none());
    assert!(puzzle_from_string("board:8").is_none());
    assert!(puzzle_from_string("board:x:8").is_none());
    assert!(puzzle_from_string("board:0:8").is_none());
    assert!(puzzle_from_string("board:17:8").is_none());
    assert!(puzzle_from_string("board:8:8:goal:8:0").is_none());
    assert!(puzzle_from_string("board:8:8:goal:1").is_none());
    assert!(puzzle_from_string("board:8:8:main_robot:1:-1").is_none());
    assert!(puzzle_from_string("board:8:8:blocker:300:1").is_none());
}

#[test]
fn largest_board_is_accepted() {
    let (board, state) = puzzle_from_string("board:16:16:main_robot:15:15").unwrap();
    assert_eq!(board.len(), 16);
    assert_eq!(board[15][15], BoardPiece::Start);
    assert_eq!(state.0, 255);
}

#[test]
fn labels_of_moves() {
    assert_eq!(piece_label(&PieceType::Main), "Main");
    assert_eq!(piece_label(&PieceType::HelperOne), "Helper1");
    assert_eq!(piece_label(&PieceType::HelperTwo), "Helper2");
    assert_eq!(direction_label(&Direction::Up), "Up");
    assert_eq!(direction_label(&Direction::Down), "Down");
    assert_eq!(direction_label(&Direction::Left), "Left");
    assert_eq!(direction_label(&Direction::Right), "Right");
}

#[test]
fn draws_pieces_on_board() {
    let (board, state) = puzzle_from_string("board:3:2:main_robot:0:0:goal:2:1:helper_robot:1:1:helper_robot:0:1:blocker:1:0").unwrap();
    let drawn = board_with_pieces(&board, state);
    let text: Vec<String> = drawn.iter().map(|row| row.iter().map(cell_sign).collect()).collect();
    assert_eq!(text, vec!["M# ".to_string(), "HHo".to_string()]);
}

#[test]
fn signs_of_cells() {
    assert_eq!(cell_sign(&BoardPiece::Start), '+');
    assert_eq!(cell_sign(&BoardPiece::Goal), 'o');
    assert_eq!(cell_sign(&BoardPiece::Blocker), '#');
    assert_eq!(cell_sign(&BoardPiece::Empty), ' ');
    assert_eq!(cell_sign(&BoardPiece::BoardMain), 'M');
    assert_eq!(cell_sign(&BoardPiece::BoardHelper), 'H');
}
