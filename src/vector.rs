use vstd::prelude::*;

verus! {

/// A pair of grid coordinates: `x` is the row, `y` the column.
#[derive(Clone, Copy, PartialEq, Eq, Structural, Debug, Hash)]
pub struct Vector2 {
    pub x: i32,
    pub y: i32,
}

/// The absolute value of an integer.
pub open spec fn abs(v: int) -> int {
    if v < 0 {
        -v
    } else {
        v
    }
}

/// The orthogonal (Manhattan) distance between two coordinate pairs.
pub open spec fn ortho_distance(ax: int, ay: int, bx: int, by: int) -> int {
    abs(ax - bx) + abs(ay - by)
}

impl Vector2 {
    pub fn new(x: i32, y: i32) -> (r: Vector2)
        ensures
            r.x == x,
            r.y == y,
    {
        Vector2 { x, y }
    }

    /// The orthogonal distance to `other`; the sum must fit in a `u32`.
    pub fn distance_ortho(&self, other: &Vector2) -> (r: u32)
        requires
            ortho_distance(self.x as int, self.y as int, other.x as int, other.y as int)
                <= u32::MAX,
        ensures
            r == ortho_distance(self.x as int, self.y as int, other.x as int, other.y as int),
    {
        let dx: i64 = self.x as i64 - other.x as i64;
        let dy: i64 = self.y as i64 - other.y as i64;
        let ax: i64 = if dx < 0 { -dx } else { dx };
        let ay: i64 = if dy < 0 { -dy } else { dy };
        (ax + ay) as u32
    }

    /// The shape of a grid with `x` rows and `y` columns.
    pub fn dim(&self) -> (r: (usize, usize))
        requires
            self.x >= 0,
            self.y >= 0,
        ensures
            r.0 == self.x,
            r.1 == self.y,
    {
        (self.x as usize, self.y as usize)
    }

    /// The coordinates as array indices.
    pub fn index(&self) -> (r: (usize, usize))
        requires
            self.x >= 0,
            self.y >= 0,
        ensures
            r.0 == self.x,
            r.1 == self.y,
    {
        (self.x as usize, self.y as usize)
    }
}

} // verus!
