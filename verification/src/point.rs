//! Points of the grid, and division that rounds down.

use vstd::prelude::*;

verus! {

/// A position on the integer grid.
#[derive(Copy, Clone, Debug, PartialEq, Eq, Hash, Structural)]
pub struct Point {
    pub x: i32,
    pub y: i32,
}

/// A position in the world, in cells.
pub type WorldPosition = Point;

impl Point {
    pub fn new(x: i32, y: i32) -> (p: Point)
        ensures
            p == (Point { x, y }),
    {
        Point { x, y }
    }
}

/// A two-dimensional index into a grid, like those of chunks and of regions.
pub trait Index {
    /// The place in the grid that the index names.
    spec fn place(&self) -> Point;

    fn x(&self) -> (x: i32)
        ensures
            x == self.place().x,
    ;

    fn y(&self) -> (y: i32)
        ensures
            y == self.place().y,
    ;
}

impl Index for Point {
    open spec fn place(&self) -> Point {
        *self
    }

    fn x(&self) -> (x: i32) {
        self.x
    }

    fn y(&self) -> (y: i32) {
        self.y
    }
}

/// The quotient of `a` by a positive `d`, rounded towards negative infinity.
pub open spec fn floor_div(a: int, d: int) -> int {
    a / d
}

/// The remainder of `a` by a positive `d` that goes with `floor_div`: it lies in `0..d`.
pub open spec fn floor_mod(a: int, d: int) -> int {
    a % d
}

/// Floored quotient and remainder put the number together again, and the remainder is in range.
pub proof fn lemma_floor_div_mod(a: int, d: int)
    requires
        d > 0,
    ensures
        a == floor_div(a, d) * d + floor_mod(a, d),
        0 <= floor_mod(a, d) < d,
{
    vstd::arithmetic::div_mod::lemma_fundamental_div_mod(a, d);
    vstd::arithmetic::div_mod::lemma_mod_bound(a, d);
    assert(d * (a / d) == (a / d) * d) by (nonlinear_arith);
}

/// Divides with rounding towards negative infinity, where `/` would round towards zero.
pub fn div_floor(a: i32, d: i32) -> (q: i32)
    requires
        d > 0,
    ensures
        q == floor_div(a as int, d as int),
{
    if a < 0 {
        let n: i32 = -(a + 1);
        proof {
            lemma_neg_floor(a as int, d as int);
        }
        -(n / d) - 1
    } else {
        a / d
    }
}

/// The remainder that goes with `div_floor`: never negative.
pub fn mod_floor(a: i32, d: i32) -> (r: i32)
    requires
        d > 0,
    ensures
        r == floor_mod(a as int, d as int),
        0 <= r < d,
{
    proof {
        lemma_floor_div_mod(a as int, d as int);
    }
    if a < 0 {
        let n: i32 = -(a + 1);
        proof {
            lemma_neg_floor(a as int, d as int);
        }
        d - 1 - (n % d)
    } else {
        a % d
    }
}

proof fn lemma_neg_floor(a: int, d: int)
    requires
        a < 0,
        d > 0,
    ensures
        a / d == -((-(a + 1)) / d) - 1,
        a % d == d - 1 - ((-(a + 1)) % d),
{
    let n = -(a + 1);
    let q = n / d;
    let r = n % d;
    vstd::arithmetic::div_mod::lemma_fundamental_div_mod(n, d);
    vstd::arithmetic::div_mod::lemma_mod_bound(n, d);
    // a = -n - 1 = -(d*q + r) - 1 = d * (-q - 1) + (d - 1 - r)
    assert(a == d * (-q - 1) + (d - 1 - r)) by (nonlinear_arith)
        requires
            n == d * q + r,
            a == -n - 1,
    ;
    vstd::arithmetic::div_mod::lemma_fundamental_div_mod_converse(a, d, -q - 1, d - 1 - r);
}

} // verus!
