//! The four node colors and the arithmetic that moves blackness around.

use vstd::prelude::*;

verus! {

/// Node colors, ordered by blackness. Only `Red` and `Black` occur in a
/// tree at rest; the other two appear while a deletion is rebalanced.
#[derive(Clone, Copy, PartialEq, Eq, Structural, Debug)]
pub enum Color {
    NegativeBlack,
    Red,
    Black,
    DoubleBlack,
}

impl Color {
    /// How many units of black a node of this color adds to each path
    /// through it.
    pub open spec fn blackness(self) -> int {
        match self {
            Color::NegativeBlack => -1,
            Color::Red => 0,
            Color::Black => 1,
            Color::DoubleBlack => 2,
        }
    }

    /// Whether the color may occur in a tree at rest.
    pub open spec fn persistent(self) -> bool {
        self == Color::Red || self == Color::Black
    }

    /// The color one step up in blackness; there is none above double
    /// black, which is given back.
    pub open spec fn darker(self) -> Color {
        match self {
            Color::NegativeBlack => Color::Red,
            Color::Red => Color::Black,
            _ => Color::DoubleBlack,
        }
    }

    /// The color one step down in blackness; there is none below negative
    /// black, which is given back.
    pub open spec fn lighter(self) -> Color {
        match self {
            Color::DoubleBlack => Color::Black,
            Color::Black => Color::Red,
            _ => Color::NegativeBlack,
        }
    }

    /// The next blacker color.
    pub fn inc(&self) -> (c: Color)
        requires
            *self != Color::DoubleBlack,
        ensures
            c == self.darker(),
            c.blackness() == self.blackness() + 1,
    {
        match *self {
            Color::NegativeBlack => Color::Red,
            Color::Red => Color::Black,
            _ => Color::DoubleBlack,
        }
    }

    /// The next less black color.
    pub fn dec(&self) -> (c: Color)
        requires
            *self != Color::NegativeBlack,
        ensures
            c == self.lighter(),
            c.blackness() == self.blackness() - 1,
    {
        match *self {
            Color::DoubleBlack => Color::Black,
            Color::Black => Color::Red,
            _ => Color::NegativeBlack,
        }
    }
}

} // verus!
