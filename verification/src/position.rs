use vstd::prelude::*;

verus! {

/// An agent's location on the grid, in tile coordinates.
#[derive(Clone, Copy, PartialEq, Eq, Structural, Debug)]
pub struct Position {
    pub x: usize,
    pub y: usize,
}

/// A signed per-axis displacement, applied to a `Position` with saturation.
#[derive(Clone, Copy, PartialEq, Eq, Structural, Debug)]
pub struct PositionDelta {
    pub x: isize,
    pub y: isize,
}

/// One of the four cardinal step directions.
#[derive(Clone, Copy, PartialEq, Eq, Structural, Debug)]
pub enum CardinalDirection {
    Up,
    Down,
    Left,
    Right,
}

/// Adding a signed offset to an unsigned coordinate: the exact sum clamped
/// into `0 ..= usize::MAX`, so the addition never wraps and never panics.
pub open spec fn sat_add(a: int, d: int) -> int {
    if a + d < 0 {
        0
    } else if a + d > usize::MAX {
        usize::MAX as int
    } else {
        a + d
    }
}

/// Chebyshev distance between two grid points.
pub open spec fn chebyshev(p0: (int, int), p1: (int, int)) -> int {
    let dx = if p0.0 >= p1.0 {
        p0.0 - p1.0
    } else {
        p1.0 - p0.0
    };
    let dy = if p0.1 >= p1.1 {
        p0.1 - p1.1
    } else {
        p1.1 - p0.1
    };
    if dx >= dy {
        dx
    } else {
        dy
    }
}

/// Chebyshev distance, the metric used for cavern spacing and as the
/// pathfinder's heuristic.
pub fn distance(p0: (usize, usize), p1: (usize, usize)) -> (d: usize)
    ensures
        d == chebyshev((p0.0 as int, p0.1 as int), (p1.0 as int, p1.1 as int)),
{
    let dx = if p0.0 >= p1.0 {
        p0.0 - p1.0
    } else {
        p1.0 - p0.0
    };
    let dy = if p0.1 >= p1.1 {
        p0.1 - p1.1
    } else {
        p1.1 - p0.1
    };
    if dx >= dy {
        dx
    } else {
        dy
    }
}

impl Position {
    pub fn new(x: usize, y: usize) -> (p: Position)
        ensures
            p.x == x,
            p.y == y,
    {
        Position { x, y }
    }

    /// The position offset by `rhs`, with each axis saturating at the numeric
    /// bounds: the result never wraps and the addition never panics.
    pub fn add(self, rhs: PositionDelta) -> (p: Position)
        ensures
            p.x == sat_add(self.x as int, rhs.x as int),
            p.y == sat_add(self.y as int, rhs.y as int),
    {
        let max128: i128 = usize::MAX as i128;
        let x128: i128 = self.x as i128 + rhs.x as i128;
        let y128: i128 = self.y as i128 + rhs.y as i128;
        let x: usize = if x128 < 0 {
            0
        } else if x128 > max128 {
            usize::MAX
        } else {
            x128 as usize
        };
        let y: usize = if y128 < 0 {
            0
        } else if y128 > max128 {
            usize::MAX
        } else {
            y128 as usize
        };
        Position { x, y }
    }
}

impl PositionDelta {
    pub fn new(x: isize, y: isize) -> (d: PositionDelta)
        ensures
            d.x == x,
            d.y == y,
    {
        PositionDelta { x, y }
    }
}

/// The unit displacement of a cardinal direction: `Up` raises `y`, `Down`
/// lowers `y`, `Left` lowers `x`, `Right` raises `x`.
pub open spec fn spec_direction_delta(dir: CardinalDirection) -> (int, int) {
    match dir {
        CardinalDirection::Up => (0, 1),
        CardinalDirection::Down => (0, -1),
        CardinalDirection::Left => (-1, 0),
        CardinalDirection::Right => (1, 0),
    }
}

impl CardinalDirection {
    /// The unit `PositionDelta` of this direction.
    pub fn delta(self) -> (d: PositionDelta)
        ensures
            d.x as int == spec_direction_delta(self).0,
            d.y as int == spec_direction_delta(self).1,
    {
        match self {
            CardinalDirection::Up => PositionDelta { x: 0, y: 1 },
            CardinalDirection::Down => PositionDelta { x: 0, y: -1 },
            CardinalDirection::Left => PositionDelta { x: -1, y: 0 },
            CardinalDirection::Right => PositionDelta { x: 1, y: 0 },
        }
    }
}

} // verus!
