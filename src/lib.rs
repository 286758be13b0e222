//! Search engine for the sliding-tile puzzle on an N×N board: the canonical
//! spiral goal, the parity test of solvability, scored search states, and a
//! best-first search with a closed set of boards.
pub mod board;
pub mod frontier;
pub mod goal;
pub mod heuristic;
pub mod laws;
pub mod node;
pub mod parse;
pub mod play;
pub mod quest;
pub mod solvability;
pub mod visited;

pub use board::{Direction, Pos};
pub use goal::construct_basic_goal;
pub use heuristic::Heuristic;
pub use node::Node;
pub use parse::{parse_input, ParseError};
pub use play::{apply_step, deal_board, slide_between, slide_blank, Slide};
pub use quest::{refine, Quest};
pub use solvability::insoluble;
