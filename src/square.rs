use vstd::prelude::*;

verus! {

/// A cell of the board: column `x`, row `y`.
#[derive(Copy, Clone, PartialEq, Eq, Structural, Hash, Debug)]
pub struct Square {
    pub x: usize,
    pub y: usize,
}

/// Two cells are neighbours when they share one axis and are one step apart
/// on the other (no diagonals).
pub open spec fn neighbours(a: Square, b: Square) -> bool {
    (a.y == b.y && (a.x + 1 == b.x || b.x + 1 == a.x))
        || (a.x == b.x && (a.y + 1 == b.y || b.y + 1 == a.y))
}

/// Reading order: top to bottom, then left to right.
pub open spec fn reads_before(a: Square, b: Square) -> bool {
    a.y < b.y || (a.y == b.y && a.x < b.x)
}

impl Square {
    /// Whether `other` is one step left, right, up or down from this cell.
    pub fn is_neighbour_of(&self, other: Square) -> (r: bool)
        ensures
            r == neighbours(*self, other),
    {
        let dx = if self.x >= other.x { self.x - other.x } else { other.x - self.x };
        let dy = if self.y >= other.y { self.y - other.y } else { other.y - self.y };
        let is_horizontal = self.y == other.y;
        let is_vertical = self.x == other.x;
        (is_horizontal && dx == 1) || (is_vertical && dy == 1)
    }
}

impl From<(usize, usize)> for Square {
    /// The cell at column `s.0`, row `s.1`.
    fn from(s: (usize, usize)) -> (r: Square) {
        Square { x: s.0, y: s.1 }
    }
}

impl vstd::std_specs::convert::FromSpecImpl<(usize, usize)> for Square {
    open spec fn obeys_from_spec() -> bool {
        true
    }

    open spec fn from_spec(s: (usize, usize)) -> Square {
        Square { x: s.0, y: s.1 }
    }
}

} // verus!
