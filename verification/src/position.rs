//! Lattice positions and the mathematical points they stand for.

use vstd::prelude::*;

verus! {

/// A point of the unbounded integer lattice. It exists in ghost code only: it
/// is what contracts say a [`Pos`] stands for.
pub struct Point {
    pub x: int,
    pub y: int,
}

impl Point {
    /// The point every knot starts from.
    pub open spec fn origin() -> Point {
        Point { x: 0, y: 0 }
    }

    /// This point moved by the vector `d`.
    pub open spec fn plus(self, d: Point) -> Point {
        Point { x: self.x + d.x, y: self.y + d.y }
    }

    /// Whether both coordinates fit the machine coordinates of a [`Pos`].
    pub open spec fn representable(self) -> bool {
        i32::MIN <= self.x <= i32::MAX && i32::MIN <= self.y <= i32::MAX
    }
}

/// How far apart two integers are.
pub open spec fn gap(a: int, b: int) -> int {
    if a <= b {
        b - a
    } else {
        a - b
    }
}

/// The number of king's moves between two points: the larger of the two
/// coordinate gaps.
pub open spec fn reach(a: Point, b: Point) -> int {
    if gap(a.x, b.x) >= gap(a.y, b.y) {
        gap(a.x, b.x)
    } else {
        gap(a.y, b.y)
    }
}

/// Two points touch when they overlap or are neighbours, diagonals included.
pub open spec fn touching(a: Point, b: Point) -> bool {
    reach(a, b) <= 1
}

/// A knot's position, with machine coordinates.
#[derive(Clone, Copy, Debug, PartialEq, Eq, Hash, Structural)]
pub struct Pos {
    pub x: i32,
    pub y: i32,
}

impl View for Pos {
    type V = Point;

    open spec fn view(&self) -> Point {
        Point { x: self.x as int, y: self.y as int }
    }
}

impl Default for Pos {
    /// The origin.
    fn default() -> (p: Pos)
        ensures
            p@ == Point::origin(),
    {
        Pos { x: 0, y: 0 }
    }
}

/// The points that a slice or vector of positions stands for, in order.
pub open spec fn points(knots: Seq<Pos>) -> Seq<Point> {
    Seq::new(knots.len(), |i: int| knots[i]@)
}

} // verus!
