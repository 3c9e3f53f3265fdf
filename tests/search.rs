use ricochet_solver::Direction::{Down, Left, Right, Up};
use ricochet_solver::PieceType::{HelperOne, HelperTwo, Main};
use ricochet_solver::{
    move_piece, neighbourhood, puzzle_from_string, solve_board, solve_puzzle, xy_to_pos, Board,
    BoardPiece, Direction, Move, PieceType, State,
};

const SCENARIO: &str = "board:8:8:main_robot:0:0:goal:2:4:helper_robot:7:0:helper_robot:7:1:\
blocker:2:0:blocker:5:0:blocker:6:0:blocker:3:3:blocker:2:5:blocker:3:6:blocker:1:7:blocker:4:7";

fn empty(w: usize, h: usize) -> Board {
    vec![vec![BoardPiece::Empty; w]; h]
}

fn replay(board: &Board, start: State, moves: &[Move]) -> State {
    let mut state = start;
    for (piece, dir) in moves {
        state = move_piece(board, &state, piece, dir).expect("every move of a solution shifts a piece");
    }
    state
}

#[test]
fn scenario_eight_by_eight_shortest_length() {
    let (board, state) = puzzle_from_string(SCENARIO).unwrap();
    let (b, end, moves) = solve_puzzle(&board, state).unwrap();
    assert!(std::ptr::eq(b, &board));
    assert_eq!(moves.len(), 12);
    assert_eq!(end.3, 1);
    assert_eq!(end.0, xy_to_pos(0, 0));
    assert_eq!(replay(&board, state, &moves), end);
}

#[test]
fn scenario_eight_by_eight_move_order() {
    let (board, state) = puzzle_from_string(SCENARIO).unwrap();
    let (_, end, moves) = solve_puzzle(&board, state).unwrap();
    let expected: Vec<Move> = vec![
        (Main, Down),
        (HelperOne, Left),
        (HelperTwo, Down),
        (HelperOne, Right),
        (HelperTwo, Up),
        (HelperTwo, Left),
        (Main, Up),
        (Main, Right),
        (Main, Down),
        (Main, Left),
        (HelperTwo, Right),
        (Main, Up),
    ];
    assert_eq!(moves, expected);
    assert_eq!(end, (0, 113, 114, 1));
}

#[test]
fn goal_next_to_start_takes_two_moves() {
    let mut board = empty(2, 2);
    board[0][0] = BoardPiece::Start;
    board[0][1] = BoardPiece::Goal;
    let state: State = (xy_to_pos(0, 0), xy_to_pos(1, 1), xy_to_pos(0, 1), 0);
    let (_, end, moves) = solve_puzzle(&board, state).unwrap();
    assert_eq!(moves, vec![(PieceType::Main, Direction::Right), (PieceType::Main, Direction::Left)]);
    assert_eq!(end, (xy_to_pos(0, 0), xy_to_pos(1, 1), xy_to_pos(0, 1), 1));
}

#[test]
fn walled_in_main_piece_is_unsolvable() {
    let line = "board:3:3:main_robot:1:1:goal:0:0:blocker:0:1:blocker:2:1:blocker:1:0:\
blocker:1:2:helper_robot:0:2:helper_robot:2:2";
    let (board, state) = puzzle_from_string(line).unwrap();
    assert!(solve_puzzle(&board, state).is_none());
}

#[test]
fn search_twice_gives_same_result() {
    let (board, state) = puzzle_from_string(SCENARIO).unwrap();
    let (_, end1, moves1) = solve_puzzle(&board, state).unwrap();
    let (_, end2, moves2) = solve_puzzle(&board, state).unwrap();
    assert_eq!(moves1.len(), moves2.len());
    assert_eq!(moves1, moves2);
    assert_eq!(end1, end2);
}

#[test]
fn already_solved_state_needs_no_moves() {
    let mut board = empty(3, 1);
    board[0][0] = BoardPiece::Start;
    let state: State = (xy_to_pos(0, 0), xy_to_pos(1, 0), xy_to_pos(2, 0), 1);
    let (_, end, moves) = solve_puzzle(&board, state).unwrap();
    assert!(moves.is_empty());
    assert_eq!(end, state);
}

#[test]
fn unsolvable_without_goal_cell() {
    let mut board = empty(4, 4);
    board[0][0] = BoardPiece::Start;
    let state: State = (xy_to_pos(0, 0), xy_to_pos(3, 3), xy_to_pos(3, 0), 0);
    assert!(solve_puzzle(&board, state).is_none());
}

#[test]
fn solve_board_reads_and_solves() {
    let (board, end, moves) = solve_board(SCENARIO.to_string()).unwrap();
    assert_eq!(board.len(), 8);
    assert_eq!(moves.len(), 12);
    assert_eq!(end.3, 1);
}

#[test]
fn solve_board_rejects_bad_line() {
    assert!(solve_board("board:8".to_string()).is_none());
}

#[test]
fn slide_stops_at_edge_blocker_and_piece() {
    let mut board = empty(8, 8);
    board[2][5] = BoardPiece::Blocker;
    let state: State = (xy_to_pos(0, 2), xy_to_pos(0, 6), xy_to_pos(7, 7), 0);
    let right = move_piece(&board, &state, &PieceType::Main, &Direction::Right).unwrap();
    assert_eq!(right, (xy_to_pos(4, 2), xy_to_pos(0, 6), xy_to_pos(7, 7), 0));
    let down = move_piece(&board, &state, &PieceType::Main, &Direction::Down).unwrap();
    assert_eq!(down, (xy_to_pos(0, 5), xy_to_pos(0, 6), xy_to_pos(7, 7), 0));
    let up = move_piece(&board, &state, &PieceType::Main, &Direction::Up).unwrap();
    assert_eq!(up, (xy_to_pos(0, 0), xy_to_pos(0, 6), xy_to_pos(7, 7), 0));
    assert!(move_piece(&board, &state, &PieceType::Main, &Direction::Left).is_none());
    let helper = move_piece(&board, &state, &PieceType::HelperTwo, &Direction::Left).unwrap();
    assert_eq!(helper, (xy_to_pos(0, 2), xy_to_pos(0, 6), xy_to_pos(0, 7), 0));
}

#[test]
fn main_piece_on_goal_sets_flag() {
    let mut board = empty(4, 2);
    board[0][3] = BoardPiece::Goal;
    let state: State = (xy_to_pos(0, 0), xy_to_pos(1, 1), xy_to_pos(2, 1), 0);
    let next = move_piece(&board, &state, &PieceType::Main, &Direction::Right).unwrap();
    assert_eq!(next, (xy_to_pos(3, 0), xy_to_pos(1, 1), xy_to_pos(2, 1), 1));
    let helper = move_piece(&board, &state, &PieceType::HelperOne, &Direction::Up).unwrap();
    assert_eq!(helper.3, 0);
}

#[test]
fn no_successor_equals_its_state() {
    let (board, state) = puzzle_from_string(SCENARIO).unwrap();
    for piece in [PieceType::Main, PieceType::HelperOne, PieceType::HelperTwo] {
        for dir in [Direction::Up, Direction::Down, Direction::Left, Direction::Right] {
            if let Some(next) = move_piece(&board, &state, &piece, &dir) {
                assert_ne!(next, state);
            }
        }
    }
}

#[test]
fn goal_flag_survives_every_move() {
    let (board, state) = puzzle_from_string(SCENARIO).unwrap();
    let flagged: State = (state.0, state.1, state.2, 1);
    for (_, next) in neighbourhood(&board, &flagged).iter() {
        assert_eq!(next.3, 1);
    }
}

#[test]
fn neighbourhood_lists_moves_in_fixed_order() {
    let board = empty(3, 3);
    let state: State = (xy_to_pos(1, 1), xy_to_pos(0, 0), xy_to_pos(2, 2), 0);
    let got: Vec<(Move, State)> = neighbourhood(&board, &state).iter().cloned().collect();
    let c = |x: usize, y: usize| xy_to_pos(x, y);
    let expected: Vec<(Move, State)> = vec![
        ((Main, Left), (c(0, 1), c(0, 0), c(2, 2), 0)),
        ((Main, Right), (c(2, 1), c(0, 0), c(2, 2), 0)),
        ((Main, Up), (c(1, 0), c(0, 0), c(2, 2), 0)),
        ((Main, Down), (c(1, 2), c(0, 0), c(2, 2), 0)),
        ((HelperOne, Right), (c(1, 1), c(2, 0), c(2, 2), 0)),
        ((HelperOne, Down), (c(1, 1), c(0, 2), c(2, 2), 0)),
        ((HelperTwo, Left), (c(1, 1), c(0, 0), c(0, 2), 0)),
        ((HelperTwo, Up), (c(1, 1), c(0, 0), c(2, 0), 0)),
    ];
    assert_eq!(got, expected);
}

#[test]
fn no_moves_when_everything_is_blocked() {
    let mut board = empty(3, 1);
    board[0][0] = BoardPiece::Start;
    let state: State = (xy_to_pos(0, 0), xy_to_pos(1, 0), xy_to_pos(2, 0), 0);
    assert_eq!(neighbourhood(&board, &state).len(), 0);
    assert!(solve_puzzle(&board, state).is_none());
}
