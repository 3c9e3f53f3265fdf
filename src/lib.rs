//! Shortest-solution search for a sliding-piece puzzle in the style of
//! Ricochet Robots: the main piece must reach a goal cell and come back to
//! its start cell, while helper pieces may be moved to stop it.

pub mod search;
pub mod solver;
mod succ_buf;
pub mod tools;

pub use search::solve_puzzle;
pub use solver::{
    move_piece, neighbourhood, pos_to_x, pos_to_y, xy_to_pos, Board, BoardPiece, Direction, Move,
    PieceType, Position, State,
};
pub use tools::{
    board_with_pieces, cell_sign, direction_label, piece_label, puzzle_from_string, solve_board,
};
