//! Evaluation engine of a fixed-length word-guessing game.

pub mod dictionary;
pub mod evaluation;
pub mod game;
pub mod guess;
pub mod keyboard_view;
pub mod positions;

pub use self::dictionary::Dictionary;
pub use self::game::Game;
pub use self::guess::CharGuess;
pub use self::guess::CharState;
pub use self::guess::GuessResult;
