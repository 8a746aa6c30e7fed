use vstd::prelude::*;
use crate::geometry::{in_reach, sq_dist, squared_distance, Point, REACH_LIMIT};

verus! {

/// Thickness of a drawn leash along its two short axes.
pub const LEASH_THICKNESS: i64 = 50;

/// Where and how a leash segment is drawn between two anchors.
///
/// The segment is a unit box scaled by `scale`, centred on `translation`, and
/// turned about the vertical axis so that its long axis faces along
/// `direction`. The turn is by the angle between the world x axis and
/// `direction`, counter-clockwise when `turn_positive` holds and clockwise
/// otherwise.
#[derive(Clone, Copy, Debug, PartialEq, Eq, Structural)]
pub struct LeashTransform {
    pub scale: Point,
    pub translation: Point,
    pub direction: Point,
    pub turn_positive: bool,
}

/// The largest `r` no greater than `k` whose square is at most `n`.
pub open spec fn sqrt_below(n: int, k: int) -> int
    decreases k,
{
    if k <= 0 {
        0
    } else if k * k <= n {
        k
    } else {
        sqrt_below(n, k - 1)
    }
}

/// The integer square root, rounded down.
pub open spec fn floor_sqrt(n: int) -> int {
    sqrt_below(n, n)
}

/// Half of an integer, rounded toward zero.
pub open spec fn half(s: int) -> int {
    if s >= 0 {
        s / 2
    } else {
        -((-s) / 2)
    }
}

/// The drawn form of the leash between `parent` and `child`.
pub open spec fn leash_transform(parent: Point, child: Point) -> LeashTransform {
    let length = floor_sqrt(sq_dist(parent, child));
    LeashTransform {
        scale: Point { x: (length / 2) as i64, y: LEASH_THICKNESS, z: LEASH_THICKNESS },
        translation: Point {
            x: half(parent.x + child.x) as i64,
            y: half(parent.y + child.y) as i64,
            z: half(parent.z + child.z) as i64,
        },
        direction: Point {
            x: (child.x - parent.x) as i64,
            y: (child.y - parent.y) as i64,
            z: (child.z - parent.z) as i64,
        },
        turn_positive: child.z - parent.z < 0,
    }
}

proof fn lemma_sqrt_below(n: int, k: int, r: int)
    requires
        0 <= r <= k,
        r * r <= n < (r + 1) * (r + 1),
    ensures
        sqrt_below(n, k) == r,
    decreases k,
{
    if k > r {
        assert(k * k > n) by (nonlinear_arith)
            requires
                k >= r + 1,
                r >= 0,
                n < (r + 1) * (r + 1),
        ;
        lemma_sqrt_below(n, k - 1, r);
    } else if k > 0 {
        assert(k * k <= n);
    }
}

proof fn lemma_floor_sqrt(n: int, r: int)
    requires
        0 <= r,
        r * r <= n < (r + 1) * (r + 1),
    ensures
        floor_sqrt(n) == r,
{
    assert(r <= n) by (nonlinear_arith)
        requires
            0 <= r,
            r * r <= n,
    ;
    lemma_sqrt_below(n, n, r);
}

/// Integer square root, rounded down, of a number below 2^90.
pub fn isqrt(n: u128) -> (r: u128)
    requires
        n < 0x400_0000_0000_0000_0000_0000,
    ensures
        r == floor_sqrt(n as int),
        r * r <= n < (r + 1) * (r + 1),
{
    let mut lo: u128 = 0;
    let mut hi: u128 = 0x2000_0000_0000;
    assert(hi * hi == 0x400_0000_0000_0000_0000_0000);
    while hi - lo > 1
        invariant
            lo < hi <= 0x2000_0000_0000,
            lo * lo <= n,
            n < hi * hi,
        decreases hi - lo,
    {
        let mid: u128 = lo + (hi - lo) / 2;
        assert(mid * mid <= 0x2000_0000_0000 * 0x2000_0000_0000) by (nonlinear_arith)
            requires
                mid <= 0x2000_0000_0000,
        ;
        if mid * mid <= n {
            lo = mid;
        } else {
            hi = mid;
        }
    }
    proof {
        lemma_floor_sqrt(n as int, lo as int);
    }
    lo
}

fn half_sum(a: i64, b: i64) -> (r: i64)
    requires
        -(REACH_LIMIT as int) <= a <= REACH_LIMIT,
        -(REACH_LIMIT as int) <= b <= REACH_LIMIT,
    ensures
        r == half(a + b),
{
    let s: i64 = a + b;
    if s >= 0 {
        ((s as u64) / 2) as i64
    } else {
        -((((-s) as u64) / 2) as i64)
    }
}

/// Computes how the leash between two anchors is drawn. The result depends
/// on the two positions alone.
pub fn project_leash(parent: &Point, child: &Point) -> (r: LeashTransform)
    requires
        in_reach(*parent),
        in_reach(*child),
    ensures
        r == leash_transform(*parent, *child),
{
    let d = squared_distance(parent, child);
    let length = isqrt(d as u128);
    assert(length * length <= d);
    assert(length <= 0x2000_0000_0000) by (nonlinear_arith)
        requires
            length * length <= d,
            d < 0x400_0000_0000_0000_0000_0000,
            length >= 0,
    ;
    LeashTransform {
        scale: Point { x: (length / 2) as i64, y: LEASH_THICKNESS, z: LEASH_THICKNESS },
        translation: Point {
            x: half_sum(parent.x, child.x),
            y: half_sum(parent.y, child.y),
            z: half_sum(parent.z, child.z),
        },
        direction: Point { x: child.x - parent.x, y: child.y - parent.y, z: child.z - parent.z },
        turn_positive: child.z - parent.z < 0,
    }
}

} // verus!
