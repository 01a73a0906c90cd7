//! Axis-aligned bounding box of the occupied space.
//!
//! Positions are fixed-point integer coordinates: the caller picks a scale
//! and quantizes measured positions before handing them to this crate, so
//! that every geometric statement here is exact.

use vstd::prelude::*;

verus! {

/// Largest coordinate magnitude the crate accepts.  Keeping coordinates in
/// this band lets the key quantization multiply a side length by the grid
/// resolution without overflowing an `i64`.
pub const COORD_BOUND: i64 = 0x100_0000_0000;

/// A position in the plane, in fixed-point integer coordinates.
#[derive(Clone, Copy, Debug, PartialEq, Eq, Structural)]
pub struct Position {
    pub x: i64,
    pub y: i64,
}

impl Position {
    /// True when both coordinates lie within the band the crate accepts.
    pub open spec fn in_bounds(self) -> bool {
        -COORD_BOUND <= self.x <= COORD_BOUND && -COORD_BOUND <= self.y <= COORD_BOUND
    }
}

/// Axis-aligned bounding box `[x_min, x_max) x [y_min, y_max)`, identical on
/// every rank for the duration of one decomposition epoch.
#[derive(Clone, Copy, Debug, PartialEq, Eq, Structural)]
pub struct Extents {
    pub x_min: i64,
    pub x_max: i64,
    pub y_min: i64,
    pub y_max: i64,
}

/// Smallest x coordinate among `positions` (meaningful when non-empty).
pub open spec fn min_x(positions: Seq<Position>) -> int
    decreases positions.len(),
{
    if positions.len() <= 1 {
        positions[0].x as int
    } else {
        let rest = min_x(positions.drop_first());
        if positions[0].x <= rest {
            positions[0].x as int
        } else {
            rest
        }
    }
}

/// Largest x coordinate among `positions` (meaningful when non-empty).
pub open spec fn max_x(positions: Seq<Position>) -> int
    decreases positions.len(),
{
    if positions.len() <= 1 {
        positions[0].x as int
    } else {
        let rest = max_x(positions.drop_first());
        if positions[0].x >= rest {
            positions[0].x as int
        } else {
            rest
        }
    }
}

/// Smallest y coordinate among `positions` (meaningful when non-empty).
pub open spec fn min_y(positions: Seq<Position>) -> int
    decreases positions.len(),
{
    if positions.len() <= 1 {
        positions[0].y as int
    } else {
        let rest = min_y(positions.drop_first());
        if positions[0].y <= rest {
            positions[0].y as int
        } else {
            rest
        }
    }
}

/// Largest y coordinate among `positions` (meaningful when non-empty).
pub open spec fn max_y(positions: Seq<Position>) -> int
    decreases positions.len(),
{
    if positions.len() <= 1 {
        positions[0].y as int
    } else {
        let rest = max_y(positions.drop_first());
        if positions[0].y >= rest {
            positions[0].y as int
        } else {
            rest
        }
    }
}

impl Extents {
    /// Non-degenerate box with coordinates in the accepted band.
    pub open spec fn wf(self) -> bool {
        &&& self.x_min < self.x_max
        &&& self.y_min < self.y_max
        &&& -COORD_BOUND <= self.x_min
        &&& self.x_max <= COORD_BOUND
        &&& -COORD_BOUND <= self.y_min
        &&& self.y_max <= COORD_BOUND
    }

    /// Whether `pos` falls inside the half-open box.
    pub open spec fn spec_contains(self, pos: Position) -> bool {
        self.x_min <= pos.x < self.x_max && self.y_min <= pos.y < self.y_max
    }

    pub fn new(x_min: i64, x_max: i64, y_min: i64, y_max: i64) -> (r: Self)
        requires
            x_min < x_max,
            y_min < y_max,
            -COORD_BOUND <= x_min,
            x_max <= COORD_BOUND,
            -COORD_BOUND <= y_min,
            y_max <= COORD_BOUND,
        ensures
            r == (Extents { x_min, x_max, y_min, y_max }),
            r.wf(),
    {
        Extents { x_min, x_max, y_min, y_max }
    }

    /// Tight bounding box of `positions`.  `None` when the set is empty or
    /// degenerate along either axis (all x equal, or all y equal).
    pub fn from_positions(positions: &Vec<Position>) -> (r: Option<Self>)
        requires
            forall|i: int| 0 <= i < positions@.len() ==> (#[trigger] positions@[i]).in_bounds(),
        ensures
            r is None <==> (positions@.len() == 0 || min_x(positions@) == max_x(positions@)
                || min_y(positions@) == max_y(positions@)),
            r matches Some(e) ==> {
                &&& e.x_min == min_x(positions@)
                &&& e.x_max == max_x(positions@)
                &&& e.y_min == min_y(positions@)
                &&& e.y_max == max_y(positions@)
                &&& e.wf()
            },
    {
        if positions.len() == 0 {
            return None;
        }
        let first = positions[0];
        let mut x_min = first.x;
        let mut x_max = first.x;
        let mut y_min = first.y;
        let mut y_max = first.y;
        let mut i: usize = 1;
        while i < positions.len()
            invariant
                1 <= i <= positions@.len(),
                forall|j: int| 0 <= j < positions@.len() ==> (#[trigger] positions@[j]).in_bounds(),
                x_min == min_x(positions@.take(i as int)),
                x_max == max_x(positions@.take(i as int)),
                y_min == min_y(positions@.take(i as int)),
                y_max == max_y(positions@.take(i as int)),
            decreases positions@.len() - i,
        {
            let p = positions[i];
            proof {
                lemma_bounds_extend(positions@, i as int);
            }
            if p.x < x_min {
                x_min = p.x;
            }
            if p.x > x_max {
                x_max = p.x;
            }
            if p.y < y_min {
                y_min = p.y;
            }
            if p.y > y_max {
                y_max = p.y;
            }
            i += 1;
        }
        proof {
            assert(positions@.take(positions@.len() as int) =~= positions@);
        }
        if x_min == x_max || y_min == y_max {
            None
        } else {
            proof {
                lemma_bounds_in_range(positions@);
            }
            Some(Self::new(x_min, x_max, y_min, y_max))
        }
    }

    /// Half-open membership test.
    pub fn contains(&self, pos: &Position) -> (r: bool)
        ensures
            r == self.spec_contains(*pos),
    {
        self.x_min <= pos.x && pos.x < self.x_max && self.y_min <= pos.y && pos.y < self.y_max
    }

    /// The four quadrants, in the order lower-left, lower-right, upper-right,
    /// upper-left, split at the integer midpoint of each axis.
    pub fn get_quadrants(&self) -> (r: [Self; 4])
        requires
            self.wf(),
            self.x_max - self.x_min >= 2,
            self.y_max - self.y_min >= 2,
        ensures
            ({
                let cx = (self.x_min + (self.x_max - self.x_min) / 2) as i64;
                let cy = (self.y_min + (self.y_max - self.y_min) / 2) as i64;
                &&& r[0] == (Extents { x_min: self.x_min, x_max: cx, y_min: self.y_min, y_max: cy })
                &&& r[1] == (Extents { x_min: cx, x_max: self.x_max, y_min: self.y_min, y_max: cy })
                &&& r[2] == (Extents { x_min: cx, x_max: self.x_max, y_min: cy, y_max: self.y_max })
                &&& r[3] == (Extents { x_min: self.x_min, x_max: cx, y_min: cy, y_max: self.y_max })
                &&& forall|i: int| 0 <= i < 4 ==> (#[trigger] r[i]).wf()
            }),
    {
        let center_x = self.x_min + (self.x_max - self.x_min) / 2;
        let center_y = self.y_min + (self.y_max - self.y_min) / 2;
        let lower_left = Extents {
            x_min: self.x_min,
            x_max: center_x,
            y_min: self.y_min,
            y_max: center_y,
        };
        let lower_right = Extents {
            x_min: center_x,
            x_max: self.x_max,
            y_min: self.y_min,
            y_max: center_y,
        };
        let upper_right = Extents {
            x_min: center_x,
            x_max: self.x_max,
            y_min: center_y,
            y_max: self.y_max,
        };
        let upper_left = Extents {
            x_min: self.x_min,
            x_max: center_x,
            y_min: center_y,
            y_max: self.y_max,
        };
        [lower_left, lower_right, upper_right, upper_left]
    }
}

/// Extending the prefix by one position updates each running bound to the
/// smaller (larger) of the old bound and the new coordinate.
proof fn lemma_bounds_extend(positions: Seq<Position>, i: int)
    requires
        1 <= i < positions.len(),
    ensures
        min_x(positions.take(i + 1)) == if positions[i].x <= min_x(positions.take(i)) {
            positions[i].x as int
        } else {
            min_x(positions.take(i))
        },
        max_x(positions.take(i + 1)) == if positions[i].x >= max_x(positions.take(i)) {
            positions[i].x as int
        } else {
            max_x(positions.take(i))
        },
        min_y(positions.take(i + 1)) == if positions[i].y <= min_y(positions.take(i)) {
            positions[i].y as int
        } else {
            min_y(positions.take(i))
        },
        max_y(positions.take(i + 1)) == if positions[i].y >= max_y(positions.take(i)) {
            positions[i].y as int
        } else {
            max_y(positions.take(i))
        },
    decreases i,
{
    if i == 1 {
        assert(positions.take(2).drop_first() =~= positions.subrange(1, 2));
        assert(positions.take(1)[0] == positions[0]);
        assert(positions.take(2)[0] == positions[0]);
        assert(positions.subrange(1, 2)[0] == positions[1]);
        assert(positions.subrange(1, 2).len() == 1);
        assert(min_x(positions.subrange(1, 2)) == positions[1].x);
        assert(max_x(positions.subrange(1, 2)) == positions[1].x);
        assert(min_y(positions.subrange(1, 2)) == positions[1].y);
        assert(max_y(positions.subrange(1, 2)) == positions[1].y);
        assert(min_x(positions.take(1)) == positions[0].x);
        assert(max_x(positions.take(1)) == positions[0].x);
        assert(min_y(positions.take(1)) == positions[0].y);
        assert(max_y(positions.take(1)) == positions[0].y);
    } else {
        lemma_bounds_extend(positions.drop_first(), i - 1);
        assert(positions.take(i + 1).drop_first() =~= positions.drop_first().take(i));
        assert(positions.take(i).drop_first() =~= positions.drop_first().take(i - 1));
        assert(positions.take(i + 1)[0] == positions[0]);
        assert(positions.take(i)[0] == positions[0]);
        assert(positions.drop_first()[i - 1] == positions[i]);
        assert(positions.take(i + 1).len() == i + 1);
        assert(positions.take(i).len() == i);
    }
}

/// The running bounds of a non-empty in-band position set stay in band.
proof fn lemma_bounds_in_range(positions: Seq<Position>)
    requires
        positions.len() >= 1,
        forall|i: int| 0 <= i < positions.len() ==> (#[trigger] positions[i]).in_bounds(),
    ensures
        -COORD_BOUND <= min_x(positions) <= COORD_BOUND,
        -COORD_BOUND <= max_x(positions) <= COORD_BOUND,
        -COORD_BOUND <= min_y(positions) <= COORD_BOUND,
        -COORD_BOUND <= max_y(positions) <= COORD_BOUND,
    decreases positions.len(),
{
    if positions.len() > 1 {
        lemma_bounds_in_range(positions.drop_first());
    }
}

} // verus!
