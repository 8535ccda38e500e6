//! Cells, the tiles of the world, and the colours in which they are drawn.

use vstd::prelude::*;

verus! {

/// The colours in which cells and dudes are drawn.
#[derive(Copy, Clone, Debug, PartialEq, Eq, Structural)]
pub enum Color {
    Red,
    Blue,
    Green,
    Cyan,
    Magenta,
    Yellow,
    White,
}

/// The colour that stands at a place in the list of colours; a place behind the list counts
/// from the start again.
pub open spec fn color_at(n: int) -> Color {
    let place = n % 7;
    if place == 0 {
        Color::Red
    } else if place == 1 {
        Color::Blue
    } else if place == 2 {
        Color::Green
    } else if place == 3 {
        Color::Cyan
    } else if place == 4 {
        Color::Magenta
    } else if place == 5 {
        Color::Yellow
    } else {
        Color::White
    }
}

/// Calls `rand::random::<u8>()`, which draws a byte from the thread's random number generator.
/// Nothing is claimed of the byte.
#[verifier::external_body]
pub(crate) fn random_byte() -> u8 {
    rand::random::<u8>()
}

impl Color {
    /// The colour for a byte.
    pub fn pick(n: u8) -> (color: Color)
        ensures
            color == color_at(n as int),
    {
        let place: u8 = n % 7;
        if place == 0 {
            Color::Red
        } else if place == 1 {
            Color::Blue
        } else if place == 2 {
            Color::Green
        } else if place == 3 {
            Color::Cyan
        } else if place == 4 {
            Color::Magenta
        } else if place == 5 {
            Color::Yellow
        } else {
            Color::White
        }
    }

    /// A colour picked by chance.
    pub fn rand() -> Color {
        Color::pick(random_byte())
    }
}

/// What a cell is made of.
#[derive(Copy, Clone, Debug, PartialEq, Eq, Structural)]
pub enum CellKind {
    Wall,
    Floor,
    Tree,
    Nothing,
}

/// One tile of the world.
#[derive(Copy, Clone, Debug, PartialEq, Eq, Structural)]
pub struct Cell {
    pub color: Color,
    pub kind: CellKind,
}

impl Cell {
    pub fn new(kind: CellKind, color: Color) -> (cell: Cell)
        ensures
            cell == (Cell { color, kind }),
    {
        Cell { color, kind }
    }

    /// The character that a kind of cell is drawn with.
    pub open spec fn glyph(kind: CellKind) -> char {
        match kind {
            CellKind::Wall => '#',
            CellKind::Floor => '.',
            CellKind::Tree => '%',
            CellKind::Nothing => ' ',
        }
    }

    pub fn to_char(&self) -> (c: char)
        ensures
            c == Cell::glyph(self.kind),
    {
        match self.kind {
            CellKind::Wall => '#',
            CellKind::Floor => '.',
            CellKind::Tree => '%',
            CellKind::Nothing => ' ',
        }
    }

    /// Only floor can be walked on.
    pub fn can_walk(&self) -> (walkable: bool)
        ensures
            walkable == (self.kind == CellKind::Floor),
    {
        match self.kind {
            CellKind::Floor => true,
            _ => false,
        }
    }
}

} // verus!
