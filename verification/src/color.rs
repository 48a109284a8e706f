//! The two disc colors and the `opposite` operation on them.

use vstd::prelude::*;

verus! {

/// The color of a disc on the board. A cell holds `Option<Color>`:
/// `None` for an empty cell, `Some(c)` for a disc of color `c`.
#[derive(Clone, Copy, Debug, PartialEq, Eq, Structural)]
pub enum Color {
    Black,
    White,
}

impl Color {
    /// The opposite color, as a pure mathematical function.
    pub open spec fn spec_rev(&self) -> Color {
        match self {
            Color::Black => Color::White,
            Color::White => Color::Black,
        }
    }

    /// The opposite color: Black <-> White.
    #[verifier::when_used_as_spec(spec_rev)]
    pub fn rev(&self) -> (r: Color)
        ensures
            r == self.spec_rev(),
    {
        match self {
            Color::Black => Color::White,
            Color::White => Color::Black,
        }
    }

    /// The one-character symbol used to render a disc of this color.
    pub fn sym(&self) -> (r: &'static str)
        ensures
            self is Black ==> r@ == "*"@,
            self is White ==> r@ == "o"@,
    {
        match self {
            Color::Black => "*",
            Color::White => "o",
        }
    }

    /// The symbol used to render an empty cell.
    pub fn sym_empty() -> (r: &'static str)
        ensures
            r@ == "-"@,
    {
        "-"
    }
}

} // verus!
