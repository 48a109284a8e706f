//! Game configuration: who plays each color, and on what board size.

use vstd::prelude::*;
use crate::color::Color;

verus! {

/// Who controls one side: a human at the prompt, or the automated player
/// with its evaluation weights.
pub enum PlayerType {
    Human,
    Computer(crate::cpu::Setting),
}

/// The configuration of one game: a player for each color and the board
/// dimensions.
pub struct Setting {
    pub black: PlayerType,
    pub white: PlayerType,
    pub boardsize: (usize, usize),
}

impl Setting {
    /// The player that controls color `c`.
    pub fn player_type(&self, c: &Color) -> (r: &PlayerType)
        ensures
            *c is Black ==> *r == self.black,
            *c is White ==> *r == self.white,
    {
        match *c {
            Color::Black => &self.black,
            Color::White => &self.white,
        }
    }
}

} // verus!
