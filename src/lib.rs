//! A tabular reinforcement-learning agent for chess: a bounded-depth search
//! that blends learned position values with a material heuristic, backed by
//! an experience store of running value estimates keyed by position.
//!
//! Values are fixed-point integers: `value::ONE` stands for 1.0.

pub mod value;
pub mod experience;
pub mod codec;
pub mod board;
mod chance;
pub mod environment;
pub mod agent;

pub use agent::ChessAgent;
pub use board::{Side, hash_gamestate};
pub use codec::parse_exp_file;
pub use environment::{ChessEnvironment, TerminalState};
pub use experience::{Experience, Recollection};
