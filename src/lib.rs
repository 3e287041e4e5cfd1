//! Parsing of dice roll commands such as `yyypp`, `2g1y2p` or
//! `difficulty difficulty ability proficiency` into groups of rolls.

/// The `Dice` enum.
pub mod dice;
/// The `DiceRoll` struct.
pub mod dice_roll;
/// The `ParserError` enum.
pub mod error;
/// The table of aliases and the recognition of one alias.
pub mod alias;
/// Tallying rolls into one entry per kind.
pub mod aggregate;
/// The grammar of rolls, groups and lists of groups.
pub mod grammar;
/// Reading a whole command line.
pub mod line;
/// Writing a group back as a command, and reading it again.
pub mod retally;
/// Commands that can never be read: stray characters, a trailing comma.
pub mod rejection;

pub use line::parse_line;
