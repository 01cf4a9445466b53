//! A single Kaiju player's state and its mathematical view.

use vstd::prelude::*;

verus! {

/// Represents a single Kaiju player's state.
#[derive(Debug)]
pub struct Player {
    pub id: u32,
    pub name: String,
    pub hp: u8,
    pub victory_points: u8,
    pub energy: u32,
}

/// The mathematical view of a player: identity, display name, and the three
/// resource values as unbounded integers.
pub struct PlayerView {
    pub id: u32,
    pub name: Seq<char>,
    pub hp: int,
    pub victory_points: int,
    pub energy: int,
}

impl View for Player {
    type V = PlayerView;

    open spec fn view(&self) -> PlayerView {
        PlayerView {
            id: self.id,
            name: self.name@,
            hp: self.hp as int,
            victory_points: self.victory_points as int,
            energy: self.energy as int,
        }
    }
}

impl Player {
    /// A fresh player: the given identity and name, starting hp of 10, and
    /// no victory points or energy.
    pub fn new(id: u32, name: &str) -> (p: Player)
        ensures
            p@ == (PlayerView { id, name: name@, hp: 10, victory_points: 0, energy: 0 }),
    {
        Player { id, name: name.to_owned(), hp: 10, victory_points: 0, energy: 0 }
    }
}

} // verus!
