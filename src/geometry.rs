use vstd::prelude::*;

verus! {

/// Largest coordinate magnitude accepted for obstacle geometry and ray hits.
pub const WORLD_LIMIT: i64 = 1_099_511_627_776;

/// Largest coordinate magnitude an anchor may hold. Corners of inflated
/// obstacle boxes stay well inside it.
pub const REACH_LIMIT: i64 = 8_796_093_022_208;

/// A point in world space, in fixed-point units.
#[derive(Clone, Copy, Debug, PartialEq, Eq, Structural)]
pub struct Point {
    pub x: i64,
    pub y: i64,
    pub z: i64,
}

pub open spec fn coord_within(c: int, limit: int) -> bool {
    -limit <= c <= limit
}

pub open spec fn within(p: Point, limit: int) -> bool {
    coord_within(p.x as int, limit) && coord_within(p.y as int, limit) && coord_within(
        p.z as int,
        limit,
    )
}

pub open spec fn in_world(p: Point) -> bool {
    within(p, WORLD_LIMIT as int)
}

pub open spec fn in_reach(p: Point) -> bool {
    within(p, REACH_LIMIT as int)
}

pub open spec fn sq(d: int) -> int {
    d * d
}

/// Squared Euclidean distance between two points.
pub open spec fn sq_dist(a: Point, b: Point) -> int {
    sq(a.x - b.x) + sq(a.y - b.y) + sq(a.z - b.z)
}

proof fn lemma_sq_bounds(d: int, m: int)
    requires
        0 <= m,
        -m <= d <= m,
    ensures
        0 <= sq(d) <= m * m,
{
    assert(0 <= d * d <= m * m) by (nonlinear_arith)
        requires
            0 <= m,
            -m <= d <= m,
    ;
}

impl Point {
    pub fn new(x: i64, y: i64, z: i64) -> (r: Point)
        ensures
            r == (Point { x, y, z }),
    {
        Point { x, y, z }
    }

    /// Whether every coordinate lies within the given magnitude.
    pub fn is_within(&self, limit: i64) -> (r: bool)
        requires
            limit >= 0,
        ensures
            r == within(*self, limit as int),
    {
        -limit <= self.x && self.x <= limit && -limit <= self.y && self.y <= limit && -limit
            <= self.z && self.z <= limit
    }
}

fn sq_diff(a: i64, b: i64) -> (r: i128)
    requires
        coord_within(a as int, REACH_LIMIT as int),
        coord_within(b as int, REACH_LIMIT as int),
    ensures
        r == sq(a - b),
        0 <= r <= 4 * (REACH_LIMIT as int) * (REACH_LIMIT as int),
{
    let d: i128 = a as i128 - b as i128;
    proof {
        lemma_sq_bounds(d as int, 2 * (REACH_LIMIT as int));
    }
    d * d
}

/// Squared distance between two points within reach; exact.
pub fn squared_distance(a: &Point, b: &Point) -> (r: i128)
    requires
        in_reach(*a),
        in_reach(*b),
    ensures
        r == sq_dist(*a, *b),
        0 <= r <= 12 * (REACH_LIMIT as int) * (REACH_LIMIT as int),
{
    sq_diff(a.x, b.x) + sq_diff(a.y, b.y) + sq_diff(a.z, b.z)
}

} // verus!
