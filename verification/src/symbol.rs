//! Colours and the symbols a grid cell can hold.

use vstd::prelude::*;

verus! {

/// A path colour. Colours are solved in the order Red, Green, Blue.
#[derive(Debug, Clone, Copy, PartialEq, Eq, Hash, Structural)]
pub enum Color {
    Red,
    Green,
    Blue,
}

impl Color {
    /// Position of the colour in the solving order.
    pub open spec fn rank(self) -> nat {
        match self {
            Color::Red => 0,
            Color::Green => 1,
            Color::Blue => 2,
        }
    }

    /// The colour solved after this one, if any.
    pub open spec fn successor(self) -> Option<Color> {
        match self {
            Color::Red => Some(Color::Green),
            Color::Green => Some(Color::Blue),
            Color::Blue => None,
        }
    }

    /// The colour solved after this one; `None` after the last.
    pub fn next(self) -> (r: Option<Color>)
        ensures
            r == self.successor(),
    {
        match self {
            Color::Red => Some(Color::Green),
            Color::Green => Some(Color::Blue),
            Color::Blue => None,
        }
    }
}

/// What a grid cell holds. A lower-case colour is a plain segment cell the
/// colour's path has to pass; an `End` is one of the colour's two endpoints;
/// `White(n)` is a junction that wants exactly `n` incoming edges.
#[derive(Debug, Clone, Copy, PartialEq, Eq, Hash, Structural)]
pub enum Symbol {
    R,
    G,
    B,
    REnd,
    GEnd,
    BEnd,
    Empty,
    White(u8),
}

impl Symbol {
    /// The plain segment marker of a colour.
    pub open spec fn segment_of(c: Color) -> Symbol {
        match c {
            Color::Red => Symbol::R,
            Color::Green => Symbol::G,
            Color::Blue => Symbol::B,
        }
    }

    /// The endpoint marker of a colour.
    pub open spec fn endpoint_of(c: Color) -> Symbol {
        match c {
            Color::Red => Symbol::REnd,
            Color::Green => Symbol::GEnd,
            Color::Blue => Symbol::BEnd,
        }
    }

    /// The symbol a character of the input grid stands for.
    pub open spec fn of_char(c: char) -> Option<Symbol> {
        if c == 'r' {
            Some(Symbol::R)
        } else if c == 'g' {
            Some(Symbol::G)
        } else if c == 'b' {
            Some(Symbol::B)
        } else if c == 'R' {
            Some(Symbol::REnd)
        } else if c == 'G' {
            Some(Symbol::GEnd)
        } else if c == 'B' {
            Some(Symbol::BEnd)
        } else if c == '.' {
            Some(Symbol::Empty)
        } else if c == '1' {
            Some(Symbol::White(1))
        } else if c == '2' {
            Some(Symbol::White(2))
        } else if c == '3' {
            Some(Symbol::White(3))
        } else if c == '4' {
            Some(Symbol::White(4))
        } else {
            None
        }
    }

    /// The colour of which this symbol is the endpoint marker, if it is one.
    pub open spec fn endpoint_color(self) -> Option<Color> {
        match self {
            Symbol::REnd => Some(Color::Red),
            Symbol::GEnd => Some(Color::Green),
            Symbol::BEnd => Some(Color::Blue),
            _ => None,
        }
    }

    /// A cell of this symbol can carry an edge of colour `c`: it is a segment
    /// or endpoint of `c`, or a junction.
    pub open spec fn carries(self, c: Color) -> bool {
        self == Symbol::segment_of(c) || self == Symbol::endpoint_of(c) || self is White
    }

    /// The plain segment marker of `c`.
    pub fn color(c: Color) -> (s: Symbol)
        ensures
            s == Symbol::segment_of(c),
    {
        match c {
            Color::Red => Symbol::R,
            Color::Green => Symbol::G,
            Color::Blue => Symbol::B,
        }
    }

    /// The endpoint marker of `c`.
    pub fn color_end(c: Color) -> (s: Symbol)
        ensures
            s == Symbol::endpoint_of(c),
    {
        match c {
            Color::Red => Symbol::REnd,
            Color::Green => Symbol::GEnd,
            Color::Blue => Symbol::BEnd,
        }
    }

    /// Reads one character of the input grid; `None` for a character that
    /// names no symbol.
    pub fn from_char(c: char) -> (r: Option<Symbol>)
        ensures
            r == Symbol::of_char(c),
    {
        match c {
            'r' => Some(Symbol::R),
            'g' => Some(Symbol::G),
            'b' => Some(Symbol::B),
            'R' => Some(Symbol::REnd),
            'G' => Some(Symbol::GEnd),
            'B' => Some(Symbol::BEnd),
            '.' => Some(Symbol::Empty),
            '1' => Some(Symbol::White(1)),
            '2' => Some(Symbol::White(2)),
            '3' => Some(Symbol::White(3)),
            '4' => Some(Symbol::White(4)),
            _ => None,
        }
    }
}

} // verus!
