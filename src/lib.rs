//! Builds a shared instruction program that sweeps several agents over a
//! walled square grid until every cell has been visited.
//!
//! Each agent owns a command table that maps an instruction index to a
//! direction; one program of indices is broadcast to all agents. The program
//! is grown greedily from breadth-first distances to the cells not yet
//! visited, over several randomised restarts.
pub mod grid;
pub mod trail;
pub mod field;
pub mod pick;
pub mod search;
pub mod laws;
pub mod audit;

pub use grid::{try_move, MAX_N, WALL};
pub use trail::calc_bitboard;
pub use field::{calc_distance, FAR};
pub use pick::{lex_less, select_step, sort_list};
pub use search::{keep_best, new_table, score_of, solve, try_once, Rng, TRIALS};
pub use audit::{can_move, compute_score, compute_score_details, is_connected, Input, Output, State, NONE};
