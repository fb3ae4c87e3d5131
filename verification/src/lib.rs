//! Verified core of the Pathagon engine.
pub mod bitboard;
pub mod contract;
pub mod evidence;
pub mod frontier;
pub mod geometry;
pub mod golden;
pub mod golden_book;
pub mod golden_table;
pub mod model;
pub mod promotion;
pub mod ring;
pub mod pathfinder;
pub mod ground_truth;
pub mod rules;
pub mod runtime;
pub mod sampling;
pub mod search;
pub mod selfplay;
pub mod tablebase;
pub mod text;

pub use bitboard::bit_squares;
pub use rules::{
    parse_action, winning_path,
    has_winning_path, Action, BoardConfig, GameState, Player, Transition, BOARD_SIZE, CELL_COUNT,
    DEFAULT_MAX_PLIES, MAX_BOARD_SIZE, MAX_CELL_COUNT, MIN_BOARD_SIZE,
};
