use vstd::prelude::*;

verus! {

/// The kinds of dice that a command can ask for.
#[derive(Clone, Copy, Debug, PartialEq, Eq, Hash, Structural)]
pub enum Dice {
    /// The Boost die is a blue d6.
    Boost,
    /// The Ability die is a green d8.
    Ability,
    /// The Proficiency die is a yellow d12.
    Proficiency,
    /// The Setback die is a black d6.
    Setback,
    /// The Difficulty die is a purple d8.
    Difficulty,
    /// The Challenge die is a red d12.
    Challenge,
    /// The Force die is a white d12.
    Force,
}

} // verus!
