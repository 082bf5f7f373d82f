use vstd::prelude::*;

verus! {

/// A position on the unbounded integer grid.
#[derive(Debug, Copy, Clone, PartialEq, Eq, Hash, Structural)]
#[verifier::ext_equal]
pub struct Coord {
    pub x: isize,
    pub y: isize,
}

impl Coord {
    pub fn new(x: isize, y: isize) -> (r: Self)
        ensures
            r.x == x,
            r.y == y,
    {
        Self { x, y }
    }

    pub fn origin() -> (r: Self)
        ensures
            r.x == 0,
            r.y == 0,
    {
        Self { x: 0, y: 0 }
    }

    /// Displaces this position by a vector.
    pub fn plus(self, rhs: Vec2D) -> (r: Coord)
        requires
            isize::MIN <= self.x + rhs.x <= isize::MAX,
            isize::MIN <= self.y + rhs.y <= isize::MAX,
        ensures
            r.x == self.x + rhs.x,
            r.y == self.y + rhs.y,
    {
        Coord { x: self.x + rhs.x, y: self.y + rhs.y }
    }

    /// The displacement that carries `rhs` onto `self`.
    pub fn minus(self, rhs: Coord) -> (r: Vec2D)
        requires
            isize::MIN <= self.x - rhs.x <= isize::MAX,
            isize::MIN <= self.y - rhs.y <= isize::MAX,
        ensures
            r.x == self.x - rhs.x,
            r.y == self.y - rhs.y,
    {
        Vec2D { x: self.x - rhs.x, y: self.y - rhs.y }
    }
}

/// A translation vector on the integer grid.
#[derive(Debug, Copy, Clone, PartialEq, Eq, Hash, Structural)]
#[verifier::ext_equal]
pub struct Vec2D {
    pub x: isize,
    pub y: isize,
}

impl Vec2D {
    pub fn new(x: isize, y: isize) -> (r: Self)
        ensures
            r.x == x,
            r.y == y,
    {
        Self { x, y }
    }

    pub fn zero() -> (r: Self)
        ensures
            r.x == 0,
            r.y == 0,
    {
        Self { x: 0, y: 0 }
    }

    pub fn plus(self, rhs: Vec2D) -> (r: Vec2D)
        requires
            isize::MIN <= self.x + rhs.x <= isize::MAX,
            isize::MIN <= self.y + rhs.y <= isize::MAX,
        ensures
            r.x == self.x + rhs.x,
            r.y == self.y + rhs.y,
    {
        Vec2D { x: self.x + rhs.x, y: self.y + rhs.y }
    }

    pub fn minus(self, rhs: Vec2D) -> (r: Vec2D)
        requires
            isize::MIN <= self.x - rhs.x <= isize::MAX,
            isize::MIN <= self.y - rhs.y <= isize::MAX,
        ensures
            r.x == self.x - rhs.x,
            r.y == self.y - rhs.y,
    {
        Vec2D { x: self.x - rhs.x, y: self.y - rhs.y }
    }
}

} // verus!
