//! Turn-resolution engine for a dice-driven monster-combat board game:
//! rolling and rerolling six dice, tallying faces, applying scoring and
//! resource effects, and running the contested-territory occupancy state
//! machine.

pub mod dice;
pub mod game;
pub mod parser;
pub mod player;
pub mod tally;
pub mod traits;

pub use dice::DieResult;
pub use dice::roll_dice;
pub use dice::reroll_dice;
pub use game::DecisionPoints;
pub use game::Game;
pub use game::GameView;
pub use game::TurnDecisions;
pub use game::VictoryOutcome;
pub use parser::RerollParseError;
pub use parser::parse_reroll_input;
pub use player::Player;
pub use player::PlayerView;
pub use tally::FaceTally;
pub use tally::tally;
pub use traits::HenshinPower;
