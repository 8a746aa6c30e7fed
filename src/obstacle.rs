use vstd::prelude::*;
use crate::geometry::{
    coord_within, in_reach, in_world, sq_dist, squared_distance, Point, WORLD_LIMIT,
};
use crate::selection::{first_min, is_first_min, lemma_first_min, lemma_first_min_iff};

verus! {

/// An obstacle's bounding box as placed in the world: the obstacle's own
/// origin, and the world positions of its local box's min and max corners.
#[derive(Clone, Copy, Debug, PartialEq, Eq, Structural)]
pub struct ObstacleBox {
    pub origin: Point,
    pub min: Point,
    pub max: Point,
}

impl ObstacleBox {
    pub open spec fn wf(self) -> bool {
        in_world(self.origin) && in_world(self.min) && in_world(self.max)
    }

    pub fn new(origin: Point, min: Point, max: Point) -> (r: ObstacleBox)
        ensures
            r == (ObstacleBox { origin, min, max }),
    {
        ObstacleBox { origin, min, max }
    }
}

/// An offset grown by one hundredth, rounded toward zero.
pub open spec fn grow(o: int) -> int {
    if o >= 0 {
        o * 101 / 100
    } else {
        -((-o) * 101 / 100)
    }
}

/// A coordinate of a box corner after the box is scaled by 1.01 about the
/// obstacle's origin, so that an anchor placed there sits clear of the surface.
pub open spec fn inflate(origin: int, c: int) -> int {
    origin + grow(c - origin)
}

pub open spec fn inflated(origin: Point, p: Point) -> Point {
    Point {
        x: inflate(origin.x as int, p.x as int) as i64,
        y: inflate(origin.y as int, p.y as int) as i64,
        z: inflate(origin.z as int, p.z as int) as i64,
    }
}

/// The four candidate anchor corners of an obstacle, on the ground plane, in
/// their fixed order: (min x, min z), (max x, min z), (min x, max z), (max x, max z).
pub open spec fn corner(b: ObstacleBox, k: int) -> Point {
    let lo = inflated(b.origin, b.min);
    let hi = inflated(b.origin, b.max);
    if k == 0 {
        Point { x: lo.x, y: 0, z: lo.z }
    } else if k == 1 {
        Point { x: hi.x, y: 0, z: lo.z }
    } else if k == 2 {
        Point { x: lo.x, y: 0, z: hi.z }
    } else {
        Point { x: hi.x, y: 0, z: hi.z }
    }
}

pub open spec fn corner_keys(b: ObstacleBox, at: Point) -> Seq<Option<int>> {
    seq![
        Some(sq_dist(corner(b, 0), at)),
        Some(sq_dist(corner(b, 1), at)),
        Some(sq_dist(corner(b, 2), at)),
        Some(sq_dist(corner(b, 3), at)),
    ]
}

/// `k` is the corner nearest to `at`: strictly nearer than every corner before
/// it in the fixed order, and no farther than every corner after it.
pub open spec fn is_nearest_corner(b: ObstacleBox, at: Point, k: int) -> bool {
    &&& 0 <= k < 4
    &&& forall|j: int| 0 <= j < k ==> sq_dist(#[trigger] corner(b, j), at) > sq_dist(corner(b, k), at)
    &&& forall|j: int| k < j < 4 ==> sq_dist(#[trigger] corner(b, j), at) >= sq_dist(corner(b, k), at)
}

/// The index of the corner picked for a new anchor near `at`.
pub open spec fn nearest_corner_index(b: ObstacleBox, at: Point) -> int {
    first_min(corner_keys(b, at), 4).unwrap()
}

/// The corner picked for a new anchor near `at`.
pub open spec fn anchor_corner(b: ObstacleBox, at: Point) -> Point {
    corner(b, nearest_corner_index(b, at))
}

proof fn lemma_nearest_corner_keys(b: ObstacleBox, at: Point, k: int)
    ensures
        is_nearest_corner(b, at, k) <==> is_first_min(corner_keys(b, at), 4, k),
{
    let keys = corner_keys(b, at);
    assert(forall|j: int| 0 <= j < 4 ==> #[trigger] keys[j] == Some(sq_dist(corner(b, j), at)));
}

/// On the corner picked for a new anchor: among the four corners in their
/// fixed order, exactly the nearest one is picked, and of corners at equal
/// distance the one that comes first. The pick depends on the box and the
/// point alone.
pub proof fn lemma_corner_choice(b: ObstacleBox, at: Point, k: int)
    ensures
        is_nearest_corner(b, at, k) <==> k == nearest_corner_index(b, at),
        is_nearest_corner(b, at, nearest_corner_index(b, at)),
{
    let keys = corner_keys(b, at);
    lemma_first_min(keys, 4);
    assert(keys[0] is Some);
    lemma_first_min_iff(keys, 4, k);
    lemma_nearest_corner_keys(b, at, k);
    lemma_nearest_corner_keys(b, at, nearest_corner_index(b, at));
}

proof fn lemma_grow_bounds(o: int)
    requires
        -2 * (WORLD_LIMIT as int) <= o <= 2 * (WORLD_LIMIT as int),
    ensures
        -3 * (WORLD_LIMIT as int) <= grow(o) <= 3 * (WORLD_LIMIT as int),
{
    let w = WORLD_LIMIT as int;
    if o >= 0 {
        assert(o * 101 / 100 <= 3 * w) by (nonlinear_arith)
            requires
                0 <= o <= 2 * w,
                w > 0,
        ;
        assert(o * 101 / 100 >= 0) by (nonlinear_arith)
            requires
                0 <= o,
        ;
    } else {
        let m = -o;
        assert(m * 101 / 100 <= 3 * w) by (nonlinear_arith)
            requires
                0 <= m <= 2 * w,
                w > 0,
        ;
        assert(m * 101 / 100 >= 0) by (nonlinear_arith)
            requires
                0 <= m,
        ;
    }
}

fn inflate_coord(origin: i64, c: i64) -> (r: i64)
    requires
        coord_within(origin as int, WORLD_LIMIT as int),
        coord_within(c as int, WORLD_LIMIT as int),
    ensures
        r == inflate(origin as int, c as int),
        -4 * (WORLD_LIMIT as int) <= r <= 4 * (WORLD_LIMIT as int),
{
    proof {
        lemma_grow_bounds(c - origin);
    }
    let o: i64 = c - origin;
    if o >= 0 {
        let g: u64 = (o as u64) * 101 / 100;
        origin + g as i64
    } else {
        let m: u64 = (-o) as u64;
        let g: u64 = m * 101 / 100;
        origin - g as i64
    }
}

fn inflate_point(origin: &Point, p: &Point) -> (r: Point)
    requires
        in_world(*origin),
        in_world(*p),
    ensures
        r == inflated(*origin, *p),
        in_reach(r),
{
    Point {
        x: inflate_coord(origin.x, p.x),
        y: inflate_coord(origin.y, p.y),
        z: inflate_coord(origin.z, p.z),
    }
}

/// The corners of an obstacle inside the world stay within anchor reach.
pub proof fn lemma_corner_in_reach(b: ObstacleBox, k: int)
    requires
        b.wf(),
    ensures
        in_reach(corner(b, k)),
{
    lemma_grow_bounds(b.min.x - b.origin.x);
    lemma_grow_bounds(b.min.z - b.origin.z);
    lemma_grow_bounds(b.max.x - b.origin.x);
    lemma_grow_bounds(b.max.z - b.origin.z);
}

/// The four candidate corners of an obstacle, in their fixed order.
pub fn corners(b: &ObstacleBox) -> (r: [Point; 4])
    requires
        b.wf(),
    ensures
        forall|k: int| 0 <= k < 4 ==> r[k] == corner(*b, k) && in_reach(#[trigger] r[k]),
{
    let lo = inflate_point(&b.origin, &b.min);
    let hi = inflate_point(&b.origin, &b.max);
    [
        Point { x: lo.x, y: 0, z: lo.z },
        Point { x: hi.x, y: 0, z: lo.z },
        Point { x: lo.x, y: 0, z: hi.z },
        Point { x: hi.x, y: 0, z: hi.z },
    ]
}

/// Picks the corner of an obstacle at which a new anchor goes, given the
/// point where the line of sight met the obstacle.
pub fn choose_corner(b: &ObstacleBox, at: &Point) -> (r: Point)
    requires
        b.wf(),
        in_world(*at),
    ensures
        r == anchor_corner(*b, *at),
        in_reach(r),
{
    let cs = corners(b);
    let ghost keys = corner_keys(*b, *at);
    let mut best: usize = 0;
    let mut best_d: i128 = squared_distance(&cs[0], at);
    let mut i: usize = 1;
    proof {
        reveal_with_fuel(first_min, 2);
    }
    while i < 4
        invariant
            1 <= i <= 4,
            best < i,
            keys == corner_keys(*b, *at),
            in_world(*at),
            forall|k: int| 0 <= k < 4 ==> cs[k] == corner(*b, k) && in_reach(#[trigger] cs[k]),
            first_min(keys, i as int) == Some(best as int),
            best_d == sq_dist(corner(*b, best as int), *at),
        decreases 4 - i,
    {
        let d = squared_distance(&cs[i], at);
        if d < best_d {
            best = i;
            best_d = d;
        }
        i = i + 1;
    }
    proof {
        lemma_corner_in_reach(*b, best as int);
    }
    cs[best]
}

} // verus!
