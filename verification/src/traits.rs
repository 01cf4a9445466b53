//! Extensibility hook for per-character powers. No power is implemented in
//! this engine; the trait only fixes the shape a power would take.

use vstd::prelude::*;
use crate::player::Player;

verus! {

/// A character power: reacts to energy being spent and may add bonus
/// damage to a roll.
pub trait HenshinPower {
    fn on_energy_spent(&self, player: &mut Player, amount: u8);

    fn calculate_bonus_damage(&self, roll_sum: u32) -> u32;
}

} // verus!
