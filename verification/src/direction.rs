//! The eight directions in which the observer and the dudes step.

use vstd::prelude::*;
use crate::cell::random_byte;
use crate::point::Point;

verus! {

/// The eight ways to step from a cell to a cell next to it. North is up, where the rows have
/// the smaller numbers.
#[derive(Copy, Clone, Debug, PartialEq, Eq, Structural)]
pub enum Direction {
    N,
    NE,
    E,
    SE,
    S,
    SW,
    W,
    NW,
}

/// The direction that stands at a place in the list of directions, which starts in the north
/// and goes round by the east; a place behind the list counts from the start again.
pub open spec fn direction_at(n: int) -> Direction {
    let place = n % 8;
    if place == 0 {
        Direction::N
    } else if place == 1 {
        Direction::NE
    } else if place == 2 {
        Direction::E
    } else if place == 3 {
        Direction::SE
    } else if place == 4 {
        Direction::S
    } else if place == 5 {
        Direction::SW
    } else if place == 6 {
        Direction::W
    } else {
        Direction::NW
    }
}

impl Direction {
    /// How far a step in the direction goes along the columns and along the rows.
    pub open spec fn offset(self) -> (int, int) {
        match self {
            Direction::N => (0, -1),
            Direction::NE => (1, -1),
            Direction::E => (1, 0),
            Direction::SE => (1, 1),
            Direction::S => (0, 1),
            Direction::SW => (-1, 1),
            Direction::W => (-1, 0),
            Direction::NW => (-1, -1),
        }
    }

    fn offsets(self) -> (by: (i32, i32))
        ensures
            by.0 == self.offset().0,
            by.1 == self.offset().1,
    {
        match self {
            Direction::N => (0, -1),
            Direction::NE => (1, -1),
            Direction::E => (1, 0),
            Direction::SE => (1, 1),
            Direction::S => (0, 1),
            Direction::SW => (-1, 1),
            Direction::W => (-1, 0),
            Direction::NW => (-1, -1),
        }
    }

    /// The direction for a byte.
    pub fn pick(n: u8) -> (direction: Direction)
        ensures
            direction == direction_at(n as int),
    {
        let place: u8 = n % 8;
        if place == 0 {
            Direction::N
        } else if place == 1 {
            Direction::NE
        } else if place == 2 {
            Direction::E
        } else if place == 3 {
            Direction::SE
        } else if place == 4 {
            Direction::S
        } else if place == 5 {
            Direction::SW
        } else if place == 6 {
            Direction::W
        } else {
            Direction::NW
        }
    }

    /// One of the eight directions, picked by chance.
    pub fn choose8() -> Direction {
        Direction::pick(random_byte())
    }
}

/// The position is one step in the direction away from `from`.
pub open spec fn is_step(from: Point, direction: Direction, to: Point) -> bool {
    &&& to.x == from.x + direction.offset().0
    &&& to.y == from.y + direction.offset().1
}

/// The position one step in a direction away from a position; none where the grid ends.
pub open spec fn stepped(from: Point, direction: Direction) -> Option<Point> {
    let x = from.x + direction.offset().0;
    let y = from.y + direction.offset().1;
    if i32::MIN <= x <= i32::MAX && i32::MIN <= y <= i32::MAX {
        Some(Point { x: x as i32, y: y as i32 })
    } else {
        None
    }
}

/// The moves that a list of positions and a list of directions, one for each position, make:
/// for each position, in order, the step from it in its direction, where the grid has a
/// position there.
pub open spec fn steps(positions: Seq<Point>, directions: Seq<Direction>) -> Seq<(Point, Point)>
    decreases positions.len(),
{
    if positions.len() == 0 || directions.len() != positions.len() {
        Seq::empty()
    } else {
        let before = steps(positions.drop_last(), directions.drop_last());
        match stepped(positions.last(), directions.last()) {
            Some(to) => before.push((positions.last(), to)),
            None => before,
        }
    }
}

impl Point {
    /// The position one step in a direction away; none where the grid ends.
    pub fn moved(self, direction: Direction) -> (to: Option<Point>)
        ensures
            to == stepped(self, direction),
            match to {
                Some(p) => is_step(self, direction, p),
                None => !(i32::MIN <= self.x + direction.offset().0 <= i32::MAX && i32::MIN
                    <= self.y + direction.offset().1 <= i32::MAX),
            },
    {
        let by: (i32, i32) = direction.offsets();
        let x: i64 = self.x as i64 + by.0 as i64;
        let y: i64 = self.y as i64 + by.1 as i64;
        if x < i32::MIN as i64 || x > i32::MAX as i64 || y < i32::MIN as i64 || y > i32::MAX as i64 {
            None
        } else {
            Some(Point::new(x as i32, y as i32))
        }
    }
}

} // verus!
