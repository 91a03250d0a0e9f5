//! Solving "digits" puzzles (combine numbers with + - * / to reach a target, in as few steps
//! as possible), and the rules of a chat bot's crossword and ticket features.
pub mod botconfig;
pub mod crossword;
pub mod digit_list;
pub mod game_state;
pub mod operation;
pub mod puzzle_time;
pub mod response;
pub mod solver;
pub mod ticket;

pub use game_state::{DigitsError, GameState, Transition};
pub use operation::{Operation, OperationType};
pub use solver::DigitsSolver;
