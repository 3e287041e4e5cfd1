use vstd::prelude::*;

pub use crate::dice::Dice;

verus! {

/// How many dice of one kind a command asks to roll.
///
/// No bound is placed on the number: a roll of zero dice is representable.
#[derive(Clone, Copy, Debug, PartialEq, Eq, Structural)]
pub struct DiceRoll {
    /// How many dice should be rolled.
    pub number_of_dice_to_roll: u32,
    /// Which kind of die it is.
    pub die: Dice,
}

/// The mathematical reading of a roll: its kind and its count.
pub open spec fn roll_view(r: DiceRoll) -> (Dice, nat) {
    (r.die, r.number_of_dice_to_roll as nat)
}

/// The mathematical reading of a group of rolls.
pub open spec fn rolls_view(rs: Seq<DiceRoll>) -> Seq<(Dice, nat)> {
    rs.map_values(|r: DiceRoll| roll_view(r))
}

impl DiceRoll {
    /// Builds a roll of `number_of_dice_to_roll` dice of kind `die`.
    #[must_use]
    pub fn new(die: Dice, number_of_dice_to_roll: u32) -> (r: Self)
        ensures
            r.die == die,
            r.number_of_dice_to_roll == number_of_dice_to_roll,
    {
        DiceRoll { die, number_of_dice_to_roll }
    }
}

} // verus!
