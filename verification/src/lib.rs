//! A backgammon position and move engine: exact positions, every legal play
//! for a roll, game results, and the 14-character position identifier.
pub mod backgammon;
pub mod board;
pub mod checker;
pub mod codec;
pub mod dbhash;
pub mod describe;
pub mod dice;
pub mod doubles;
pub mod driver;
pub mod game;
pub mod generate;
pub mod hypergammon;
pub mod id;
pub mod laws;
pub mod mixed;
pub mod movement;
pub mod plays;
pub mod position;
pub mod raw;
pub mod state;
pub mod swap;
pub mod text;
pub mod utils;
pub mod variants;

pub use backgammon::Backgammon;
pub use board::{Board, O_BAR, X_BAR};
pub use dice::{Dice, RegularDice};
pub use game::State;
pub use hypergammon::Hypergammon;
pub use movement::{Move, Step};
pub use position::Position;
pub use state::{GamePhase, GameResult, GameState, OngoingPhase};
pub use utils::{comb, mcomb};
