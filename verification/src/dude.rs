//! Dudes, who live in the world.

use vstd::prelude::*;
use vstd::string::StringExecFns;
use crate::cell::Color;
use crate::point::WorldPosition;

verus! {

/// Somebody who lives in the world.
#[derive(Debug)]
pub struct Dude {
    pub pos: WorldPosition,
    pub appearance: char,
    pub color: Color,
    pub name: String,
}

impl Dude {
    /// A dude at the given place, in a colour picked by chance.
    pub fn new(pos: WorldPosition) -> (dude: Dude)
        ensures
            dude.pos == pos,
            dude.appearance == 'D',
            dude.name@ == "Dood"@,
    {
        Dude { pos, appearance: 'D', color: Color::rand(), name: String::from_str("Dood") }
    }

    /// The dude with the given position, appearance, colour and name.
    pub fn from_parts(pos: WorldPosition, appearance: char, color: Color, name: String) -> (dude:
        Dude)
        ensures
            dude == (Dude { pos, appearance, color, name }),
    {
        Dude { pos, appearance, color, name }
    }

    pub fn pos(&self) -> (pos: WorldPosition)
        ensures
            pos == self.pos,
    {
        self.pos
    }
}

} // verus!
