//! Integer geometry: squared distances, the circle overlap test, and the
//! sphere volume together with its inverse.
use vstd::prelude::*;

verus! {

pub open spec fn sq(x: int) -> int {
    x * x
}

pub open spec fn cube(x: int) -> int {
    x * x * x
}

/// Squared distance between two points.
pub open spec fn dist_sq(ax: int, ay: int, bx: int, by: int) -> int {
    sq(bx - ax) + sq(by - ay)
}

/// Two circles overlap when their centres are no further apart than the sum
/// of their radii (the boundary counts as touching).
pub open spec fn touching(ax: int, ay: int, ar: int, bx: int, by: int, br: int) -> bool {
    dist_sq(ax, ay, bx, by) <= sq(ar + br)
}

/// Two circles whose centres lie exactly the sum of their radii apart
/// touch: the boundary counts as a collision.
pub proof fn lemma_boundary_collides(ax: int, ay: int, ar: int, bx: int, by: int, br: int)
    requires
        dist_sq(ax, ay, bx, by) == sq(ar + br),
    ensures
        touching(ax, ay, ar, bx, by, br),
{
}

/// Largest `r` with `r * r <= n`.
pub open spec fn is_isqrt(n: int, r: int) -> bool {
    0 <= r && r * r <= n && n < (r + 1) * (r + 1)
}

/// Largest `r` with `r * r * r <= v`.
pub open spec fn is_icbrt(v: int, r: int) -> bool {
    0 <= r && cube(r) <= v && v < cube(r + 1)
}

/// Upper bound accepted by `isqrt`.
pub const ISQRT_MAX: u128 = 0x1_0000_0000_0000_0000_0;

/// Upper bound accepted by `inverse_volume_of_sphere`.
pub const ICBRT_MAX: u128 = 0x100_0000_0000_0000_0000;

/// Largest magnitude of a coordinate.
pub const COORD_MAX: i64 = 0x7fff_ffff;

pub open spec fn coord_ok(x: int) -> bool {
    -COORD_MAX <= x <= COORD_MAX
}

/// Whether two circles, given by centre and radius, overlap or touch.
pub fn check_collision(ax: i64, ay: i64, ar: u64, bx: i64, by: i64, br: u64) -> (r: bool)
    requires
        coord_ok(ax as int),
        coord_ok(ay as int),
        coord_ok(bx as int),
        coord_ok(by as int),
        ar <= u32::MAX,
        br <= u32::MAX,
    ensures
        r == touching(ax as int, ay as int, ar as int, bx as int, by as int, br as int),
{
    let dx: i128 = bx as i128 - ax as i128;
    let dy: i128 = by as i128 - ay as i128;
    let rs: i128 = ar as i128 + br as i128;
    proof {
        assert(dx * dx <= 0x1_0000_0000_0000_0000i128) by (nonlinear_arith)
            requires
                -0x1_0000_0000 <= dx <= 0x1_0000_0000;
        assert(dy * dy <= 0x1_0000_0000_0000_0000i128) by (nonlinear_arith)
            requires
                -0x1_0000_0000 <= dy <= 0x1_0000_0000;
        assert(0 <= dx * dx && 0 <= dy * dy) by (nonlinear_arith);
        assert(rs * rs <= 0x4_0000_0000_0000_0000i128) by (nonlinear_arith)
            requires
                0 <= rs <= 0x2_0000_0000;
    }
    dx * dx + dy * dy <= rs * rs
}

/// Integer square root, rounded down.
pub fn isqrt(n: u128) -> (r: u64)
    requires
        n <= ISQRT_MAX,
    ensures
        is_isqrt(n as int, r as int),
{
    let mut lo: u128 = 0;
    let mut hi: u128 = 0x8_0000_0000;
    proof {
        assert(hi * hi > ISQRT_MAX) by (nonlinear_arith)
            requires
                hi == 0x8_0000_0000u128;
    }
    while hi - lo > 1
        invariant
            lo < hi <= 0x8_0000_0000,
            lo * lo <= n,
            n < hi * hi,
        decreases hi - lo,
    {
        let mid: u128 = lo + (hi - lo) / 2;
        assert(mid * mid <= 0x40_0000_0000_0000_0000) by (nonlinear_arith)
            requires
                mid <= 0x8_0000_0000;
        if mid * mid <= n {
            lo = mid;
        } else {
            hi = mid;
        }
    }
    lo as u64
}

/// Volume of a sphere of the given radius, in units of `4/3 * pi`: the
/// constant factor is common to every sphere, so sums and comparisons of
/// volumes need only the cube of the radius.
pub fn volume_of_sphere(radius: u64) -> (v: u128)
    requires
        radius <= u32::MAX,
    ensures
        v == cube(radius as int),
{
    let r: u128 = radius as u128;
    assert(r * r <= 0x1_0000_0000_0000_0000) by (nonlinear_arith)
        requires
            r <= 0x1_0000_0000;
    assert(r * r * r <= 0x1_0000_0000_0000_0000_0000_0000) by (nonlinear_arith)
        requires
            r <= 0x1_0000_0000, r * r <= 0x1_0000_0000_0000_0000;
    r * r * r
}

/// Radius of the sphere with the given volume (in units of `4/3 * pi`),
/// rounded down: the largest radius whose volume does not exceed `volume`.
pub fn inverse_volume_of_sphere(volume: u128) -> (r: u64)
    requires
        volume <= ICBRT_MAX,
    ensures
        is_icbrt(volume as int, r as int),
{
    let mut lo: u128 = 0;
    let mut hi: u128 = 0x200_0000;
    proof {
        assert(hi * hi * hi > ICBRT_MAX) by (nonlinear_arith)
            requires
                hi == 0x200_0000u128;
    }
    while hi - lo > 1
        invariant
            lo < hi <= 0x200_0000,
            cube(lo as int) <= volume,
            volume < cube(hi as int),
        decreases hi - lo,
    {
        let mid: u128 = lo + (hi - lo) / 2;
        assert(mid * mid <= 0x4_0000_0000_0000) by (nonlinear_arith)
            requires
                mid <= 0x200_0000;
        assert(mid * mid * mid <= 0x800_0000_0000_0000_0000) by (nonlinear_arith)
            requires
                mid <= 0x200_0000, mid * mid <= 0x4_0000_0000_0000;
        if mid * mid * mid <= volume {
            lo = mid;
        } else {
            hi = mid;
        }
    }
    lo as u64
}

} // verus!
