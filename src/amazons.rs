//! The game of the Amazons: move generation, a mobility evaluation and an alpha-beta search.

pub mod board;
pub mod eval;
pub mod movegen;
pub mod reach;
pub mod search;

pub use board::{
    adjacent, apply_move, starting_board, test_half_move, test_move, well_formed, Board, Move,
    MoveError, Player, Square, S,
};
pub use eval::eval_board;
pub use movegen::moves;
pub use reach::reachable;
pub use search::{decide_move, minimax, SEARCH_DEPTH};
