//! Merging a collision group into one body that keeps the group's mass,
//! momentum and volume, placed at the group's centre of mass.
use crate::arith::{abs, cube_root, lemma_cube_root_exists, lemma_cube_root_unique, lemma_tdiv_remainder, tdiv, trunc_div};
use crate::body::{vel_ok, Body, MASS_MAX, RADIUS_MAX};
use crate::geometry::{coord_ok, cube, inverse_volume_of_sphere, volume_of_sphere};
use vstd::prelude::*;

verus! {

/// Largest number of bodies that a world holds.
pub const MAX_BODIES: usize = 1024;

/// Sum of quantity `q` over the first `n` bodies whose label is `l`.
pub open spec fn group_sum(bs: Seq<Body>, ls: Seq<usize>, l: usize, n: int, q: Quantity) -> int
    decreases n,
{
    if n <= 0 {
        0
    } else {
        group_sum(bs, ls, l, n - 1, q) + if ls[n - 1] == l {
            of(q, bs[n - 1])
        } else {
            0
        }
    }
}

/// A per-body quantity that merging adds up.
pub enum Quantity {
    Mass,
    Volume,
    MomentumX,
    MomentumY,
    MomentX,
    MomentY,
}

pub open spec fn of(q: Quantity, b: Body) -> int {
    match q {
        Quantity::Mass => mass_of(b),
        Quantity::Volume => volume_of(b),
        Quantity::MomentumX => momentum_x(b),
        Quantity::MomentumY => momentum_y(b),
        Quantity::MomentX => moment_x(b),
        Quantity::MomentY => moment_y(b),
    }
}

pub open spec fn mass_of(b: Body) -> int {
    b.mass as int
}

/// Volume in units of `4/3 * pi`.
pub open spec fn volume_of(b: Body) -> int {
    cube(b.radius as int)
}

pub open spec fn momentum_x(b: Body) -> int {
    b.mass * b.vx
}

pub open spec fn momentum_y(b: Body) -> int {
    b.mass * b.vy
}

pub open spec fn moment_x(b: Body) -> int {
    b.mass * b.x
}

pub open spec fn moment_y(b: Body) -> int {
    b.mass * b.y
}

/// Totals of the group labelled `l` among all of `bs`.
pub open spec fn total(bs: Seq<Body>, ls: Seq<usize>, l: usize, q: Quantity) -> int {
    group_sum(bs, ls, l, bs.len() as int, q)
}

/// The body that replaces the group labelled `l`, with the given id: the
/// summed mass, the radius of the summed volume, the mass-weighted mean of the
/// positions and the momentum divided by the mass (both rounded toward zero),
/// and no accumulated force.
pub open spec fn merged(bs: Seq<Body>, ls: Seq<usize>, l: usize, id: u64) -> Body {
    let m = total(bs, ls, l, Quantity::Mass);
    Body {
        id,
        x: tdiv(total(bs, ls, l, Quantity::MomentX), m) as i64,
        y: tdiv(total(bs, ls, l, Quantity::MomentY), m) as i64,
        vx: tdiv(total(bs, ls, l, Quantity::MomentumX), m) as i64,
        vy: tdiv(total(bs, ls, l, Quantity::MomentumY), m) as i64,
        fx: 0,
        fy: 0,
        mass: m as u64,
        radius: cube_root(total(bs, ls, l, Quantity::Volume)) as u64,
    }
}

/// Whether the merged body of the group labelled `l` lies in range.
pub open spec fn mergeable(bs: Seq<Body>, ls: Seq<usize>, l: usize) -> bool {
    let m = total(bs, ls, l, Quantity::Mass);
    &&& m <= MASS_MAX
    &&& cube_root(total(bs, ls, l, Quantity::Volume)) <= RADIUS_MAX
    &&& coord_ok(tdiv(total(bs, ls, l, Quantity::MomentX), m))
    &&& coord_ok(tdiv(total(bs, ls, l, Quantity::MomentY), m))
    &&& vel_ok(tdiv(total(bs, ls, l, Quantity::MomentumX), m))
    &&& vel_ok(tdiv(total(bs, ls, l, Quantity::MomentumY), m))
}

pub open spec fn all_ok(bs: Seq<Body>) -> bool {
    forall|k: int| 0 <= k < bs.len() ==> (#[trigger] bs[k]).ok()
}

proof fn lemma_group_sum_bound(bs: Seq<Body>, ls: Seq<usize>, l: usize, n: int, q: Quantity, lo: int, hi: int)
    requires
        0 <= n <= bs.len(),
        n <= ls.len(),
        lo <= 0 <= hi,
        forall|k: int| 0 <= k < n ==> lo <= #[trigger] of(q, bs[k]) <= hi,
    ensures
        n * lo <= group_sum(bs, ls, l, n, q) <= n * hi,
    decreases n,
{
    if n > 0 {
        lemma_group_sum_bound(bs, ls, l, n - 1, q, lo, hi);
        assert(lo <= of(q, bs[n - 1]) <= hi);
        assert((n - 1) * lo + lo == n * lo && (n - 1) * hi + hi == n * hi) by (nonlinear_arith);
    } else {
        assert(n * lo == 0 && n * hi == 0) by (nonlinear_arith)
            requires
                n == 0;
    }
}

proof fn lemma_group_sum_nonneg(bs: Seq<Body>, ls: Seq<usize>, l: usize, n: int, q: Quantity)
    requires
        n <= bs.len(),
        n <= ls.len(),
        forall|m: int| 0 <= m < n ==> 0 <= #[trigger] of(q, bs[m]),
    ensures
        0 <= group_sum(bs, ls, l, n, q),
    decreases n,
{
    if n > 0 {
        lemma_group_sum_nonneg(bs, ls, l, n - 1, q);
    }
}

proof fn lemma_group_sum_member(bs: Seq<Body>, ls: Seq<usize>, l: usize, n: int, q: Quantity, k: int)
    requires
        0 <= k < n <= bs.len(),
        n <= ls.len(),
        ls[k] == l,
        forall|m: int| 0 <= m < n ==> 0 <= #[trigger] of(q, bs[m]),
    ensures
        of(q, bs[k]) <= group_sum(bs, ls, l, n, q),
    decreases n,
{
    lemma_group_sum_nonneg(bs, ls, l, n - 1, q);
    if k < n - 1 {
        lemma_group_sum_member(bs, ls, l, n - 1, q, k);
    }
}

proof fn lemma_quantity_bounds(b: Body)
    requires
        b.ok(),
    ensures
        1 <= of(Quantity::Mass, b) <= MASS_MAX,
        1 <= of(Quantity::Volume, b) <= 0x1000_0000_0000_0000,
        -0x80_0000_0000_0000 <= of(Quantity::MomentumX, b) <= 0x80_0000_0000_0000,
        -0x80_0000_0000_0000 <= of(Quantity::MomentumY, b) <= 0x80_0000_0000_0000,
        -0x80_0000_0000_0000 <= of(Quantity::MomentX, b) <= 0x80_0000_0000_0000,
        -0x80_0000_0000_0000 <= of(Quantity::MomentY, b) <= 0x80_0000_0000_0000,
{
    let (m, r) = (b.mass as int, b.radius as int);
    assert(1 <= r * r <= 0x100_0000_0000) by (nonlinear_arith)
        requires
            1 <= r <= 0x10_0000;
    assert(1 <= r * r * r <= 0x1000_0000_0000_0000) by (nonlinear_arith)
        requires
            1 <= r <= 0x10_0000, 1 <= r * r <= 0x100_0000_0000;
    assert(-0x80_0000_0000_0000 <= m * b.vx <= 0x80_0000_0000_0000) by (nonlinear_arith)
        requires
            1 <= m <= 0x100_0000, -0x7fff_ffff <= b.vx <= 0x7fff_ffff;
    assert(-0x80_0000_0000_0000 <= m * b.vy <= 0x80_0000_0000_0000) by (nonlinear_arith)
        requires
            1 <= m <= 0x100_0000, -0x7fff_ffff <= b.vy <= 0x7fff_ffff;
    assert(-0x80_0000_0000_0000 <= m * b.x <= 0x80_0000_0000_0000) by (nonlinear_arith)
        requires
            1 <= m <= 0x100_0000, -0x7fff_ffff <= b.x <= 0x7fff_ffff;
    assert(-0x80_0000_0000_0000 <= m * b.y <= 0x80_0000_0000_0000) by (nonlinear_arith)
        requires
            1 <= m <= 0x100_0000, -0x7fff_ffff <= b.y <= 0x7fff_ffff;
}

proof fn lemma_totals(bs: Seq<Body>, ls: Seq<usize>, l: usize, n: int, first: int)
    requires
        all_ok(bs),
        0 <= n <= bs.len(),
        bs.len() == ls.len() <= MAX_BODIES,
    ensures
        0 <= group_sum(bs, ls, l, n, Quantity::Mass) <= 0x4_0000_0000,
        0 <= group_sum(bs, ls, l, n, Quantity::Volume) <= 0x40_0000_0000_0000_0000,
        -0x2_0000_0000_0000_0000 <= group_sum(bs, ls, l, n, Quantity::MomentumX) <= 0x2_0000_0000_0000_0000,
        -0x2_0000_0000_0000_0000 <= group_sum(bs, ls, l, n, Quantity::MomentumY) <= 0x2_0000_0000_0000_0000,
        -0x2_0000_0000_0000_0000 <= group_sum(bs, ls, l, n, Quantity::MomentX) <= 0x2_0000_0000_0000_0000,
        -0x2_0000_0000_0000_0000 <= group_sum(bs, ls, l, n, Quantity::MomentY) <= 0x2_0000_0000_0000_0000,
        0 <= first < n && ls[first] == l ==> 1 <= group_sum(bs, ls, l, n, Quantity::Mass),
        0 <= first < n && ls[first] == l ==> 1 <= group_sum(bs, ls, l, n, Quantity::Volume),
{
    assert forall|k: int| #![trigger bs[k]] 0 <= k < n implies {
        &&& 1 <= of(Quantity::Mass, bs[k]) <= MASS_MAX
        &&& 1 <= of(Quantity::Volume, bs[k]) <= 0x1000_0000_0000_0000
        &&& -0x80_0000_0000_0000 <= of(Quantity::MomentumX, bs[k]) <= 0x80_0000_0000_0000
        &&& -0x80_0000_0000_0000 <= of(Quantity::MomentumY, bs[k]) <= 0x80_0000_0000_0000
        &&& -0x80_0000_0000_0000 <= of(Quantity::MomentX, bs[k]) <= 0x80_0000_0000_0000
        &&& -0x80_0000_0000_0000 <= of(Quantity::MomentY, bs[k]) <= 0x80_0000_0000_0000
    } by {
        assert(bs[k].ok());
        lemma_quantity_bounds(bs[k]);
    }
    lemma_group_sum_bound(bs, ls, l, n, Quantity::Mass, 0, MASS_MAX as int);
    lemma_group_sum_bound(bs, ls, l, n, Quantity::Volume, 0, 0x1000_0000_0000_0000);
    lemma_group_sum_bound(bs, ls, l, n, Quantity::MomentumX, -0x80_0000_0000_0000, 0x80_0000_0000_0000);
    lemma_group_sum_bound(bs, ls, l, n, Quantity::MomentumY, -0x80_0000_0000_0000, 0x80_0000_0000_0000);
    lemma_group_sum_bound(bs, ls, l, n, Quantity::MomentX, -0x80_0000_0000_0000, 0x80_0000_0000_0000);
    lemma_group_sum_bound(bs, ls, l, n, Quantity::MomentY, -0x80_0000_0000_0000, 0x80_0000_0000_0000);
    assert(n * MASS_MAX <= 0x4_0000_0000) by (nonlinear_arith)
        requires
            0 <= n <= 1024;
    assert(n * 0x1000_0000_0000_0000 <= 0x40_0000_0000_0000_0000) by (nonlinear_arith)
        requires
            0 <= n <= 1024;
    assert(n * 0x80_0000_0000_0000 <= 0x2_0000_0000_0000_0000) by (nonlinear_arith)
        requires
            0 <= n <= 1024;
    assert(n * -0x80_0000_0000_0000 >= -0x2_0000_0000_0000_0000) by (nonlinear_arith)
        requires
            0 <= n <= 1024;
    if 0 <= first < n && ls[first] == l {
        lemma_group_sum_member(bs, ls, l, n, Quantity::Mass, first);
        lemma_group_sum_member(bs, ls, l, n, Quantity::Volume, first);
    }
}

/// The body that replaces the collision group of the body at `first` (all
/// bodies that share its label), with the given id; `None` when that body
/// would leave the representable range. Mass is kept exactly; momentum and
/// volume are kept up to rounding.
pub fn collide_planets(bodies: &Vec<Body>, labels: &Vec<usize>, first: usize, id: u64) -> (r: Option<Body>)
    requires
        all_ok(bodies@),
        bodies.len() == labels.len() <= MAX_BODIES,
        first < bodies.len(),
    ensures
        r.is_some() <==> mergeable(bodies@, labels@, labels@[first as int]),
        r.is_some() ==> r.unwrap() == merged(bodies@, labels@, labels@[first as int], id),
        r.is_some() ==> r.unwrap().ok(),
{
    let l = labels[first];
    let n = bodies.len();
    let ghost bs = bodies@;
    let ghost ls = labels@;
    let mut mass: i128 = 0;
    let mut vol: u128 = 0;
    let mut px: i128 = 0;
    let mut py: i128 = 0;
    let mut mx: i128 = 0;
    let mut my: i128 = 0;
    let mut k: usize = 0;
    while k < n
        invariant
            n == bs.len(),
            bs == bodies@,
            ls == labels@,
            all_ok(bs),
            bs.len() == ls.len() <= MAX_BODIES,
            k <= n,
            mass == group_sum(bs, ls, l, k as int, Quantity::Mass),
            vol == group_sum(bs, ls, l, k as int, Quantity::Volume),
            px == group_sum(bs, ls, l, k as int, Quantity::MomentumX),
            py == group_sum(bs, ls, l, k as int, Quantity::MomentumY),
            mx == group_sum(bs, ls, l, k as int, Quantity::MomentX),
            my == group_sum(bs, ls, l, k as int, Quantity::MomentY),
        decreases n - k,
    {
        proof {
            lemma_totals(bs, ls, l, (k + 1) as int, 0);
            lemma_totals(bs, ls, l, k as int, 0);
        }
        if labels[k] == l {
            let b = bodies[k];
            assert(bs[k as int].ok());
            proof {
                lemma_quantity_bounds(b);
            }
            let m: i128 = b.mass as i128;
            mass = mass + m;
            vol = vol + volume_of_sphere(b.radius);
            px = px + m * b.vx as i128;
            py = py + m * b.vy as i128;
            mx = mx + m * b.x as i128;
            my = my + m * b.y as i128;
        }
        k = k + 1;
    }
    proof {
        lemma_totals(bs, ls, l, n as int, first as int);
    }
    if mass > MASS_MAX as i128 {
        return None;
    }
    let radius = inverse_volume_of_sphere(vol);
    proof {
        lemma_cube_root_unique(vol as int, radius as int);
    }
    if radius > RADIUS_MAX {
        return None;
    }
    let x = trunc_div(mx, mass);
    let y = trunc_div(my, mass);
    let vx = trunc_div(px, mass);
    let vy = trunc_div(py, mass);
    if x < -0x7fff_ffff || x > 0x7fff_ffff || y < -0x7fff_ffff || y > 0x7fff_ffff {
        return None;
    }
    if vx < -0x7fff_ffff || vx > 0x7fff_ffff || vy < -0x7fff_ffff || vy > 0x7fff_ffff {
        return None;
    }
    proof {
        assert(radius >= 1) by (nonlinear_arith)
            requires
                vol >= 1, vol < (radius + 1) * (radius + 1) * (radius + 1), radius >= 0;
    }
    Some(Body {
        id,
        x: x as i64,
        y: y as i64,
        vx: vx as i64,
        vy: vy as i64,
        fx: 0,
        fy: 0,
        mass: mass as u64,
        radius,
    })
}

/// Merging keeps the total mass exactly.
pub proof fn lemma_merge_keeps_mass(bs: Seq<Body>, ls: Seq<usize>, l: usize, id: u64)
    requires
        0 < total(bs, ls, l, Quantity::Mass) <= MASS_MAX,
    ensures
        merged(bs, ls, l, id).mass == total(bs, ls, l, Quantity::Mass),
{
}

/// Merging keeps the momentum: the merged mass times the merged velocity
/// misses the summed momentum, on each axis, by less than the mass (the
/// rounding of one division).
pub proof fn lemma_merge_keeps_momentum(bs: Seq<Body>, ls: Seq<usize>, l: usize, id: u64)
    requires
        0 < total(bs, ls, l, Quantity::Mass),
        mergeable(bs, ls, l),
    ensures
        ({
            let m = total(bs, ls, l, Quantity::Mass);
            let b = merged(bs, ls, l, id);
            &&& abs(total(bs, ls, l, Quantity::MomentumX) - m * b.vx) < m
            &&& abs(total(bs, ls, l, Quantity::MomentumY) - m * b.vy) < m
        }),
{
    let m = total(bs, ls, l, Quantity::Mass);
    lemma_tdiv_remainder(total(bs, ls, l, Quantity::MomentumX), m);
    lemma_tdiv_remainder(total(bs, ls, l, Quantity::MomentumY), m);
}

/// Merging keeps the volume: the merged radius is the largest whose sphere
/// holds no more than the summed volume of the members.
pub proof fn lemma_merge_keeps_volume(bs: Seq<Body>, ls: Seq<usize>, l: usize, id: u64)
    requires
        0 <= total(bs, ls, l, Quantity::Volume),
        mergeable(bs, ls, l),
    ensures
        ({
            let v = total(bs, ls, l, Quantity::Volume);
            let nr = merged(bs, ls, l, id).radius as int;
            cube(nr) <= v < cube(nr + 1)
        }),
{
    lemma_cube_root_exists(total(bs, ls, l, Quantity::Volume));
}

} // verus!
