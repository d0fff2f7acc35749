//! A body and the two things that happen to it alone: the pull of another
//! body, and one step of motion.
use crate::arith::{abs, lemma_root_unique, lemma_tdiv_bound, lemma_tdiv_neg, root, tdiv, trunc_div};
use crate::geometry::{coord_ok, cube, dist_sq, isqrt, COORD_MAX};
use vstd::prelude::*;

verus! {

/// Largest magnitude of a velocity component.
pub const VEL_MAX: i64 = 0x7fff_ffff;

/// Largest mass of a body.
pub const MASS_MAX: u64 = 0x100_0000;

/// Largest radius of a body.
pub const RADIUS_MAX: u64 = 0x10_0000;

/// Largest gravitational constant.
pub const G_MAX: u64 = 0x1_0000;

/// Largest time step.
pub const DT_MAX: u64 = 0x100;

/// Bound on one component of the force between two bodies.
pub const PAIR_FORCE_MAX: i128 = 0x1_0000_0000_0000_0000_0000_0000;

/// Bound on one component of a body's accumulated force.
pub const ACC_MAX: i128 = 0x40_0000_0000_0000_0000_0000_0000_0000;

/// A body: a point mass with a radius, its velocity, and the force that has
/// accumulated on it during the current step.
#[derive(Clone, Copy, Debug, PartialEq, Eq)]
pub struct Body {
    pub id: u64,
    pub x: i64,
    pub y: i64,
    pub vx: i64,
    pub vy: i64,
    pub fx: i128,
    pub fy: i128,
    pub mass: u64,
    pub radius: u64,
}

pub open spec fn vel_ok(v: int) -> bool {
    -VEL_MAX <= v <= VEL_MAX
}

pub open spec fn acc_ok(f: int) -> bool {
    -ACC_MAX <= f <= ACC_MAX
}

impl Body {
    /// Position, velocity, mass and radius lie in the representable range,
    /// with a positive mass and radius.
    pub open spec fn ok(&self) -> bool {
        &&& coord_ok(self.x as int)
        &&& coord_ok(self.y as int)
        &&& vel_ok(self.vx as int)
        &&& vel_ok(self.vy as int)
        &&& 1 <= self.mass <= MASS_MAX
        &&& 1 <= self.radius <= RADIUS_MAX
        &&& acc_ok(self.fx as int)
        &&& acc_ok(self.fy as int)
    }

    /// Velocity after one step of length `dt` under the accumulated force.
    pub open spec fn next_vx(&self, dt: int) -> int {
        self.vx + tdiv(self.fx * dt, self.mass as int)
    }

    pub open spec fn next_vy(&self, dt: int) -> int {
        self.vy + tdiv(self.fy * dt, self.mass as int)
    }

    /// Position after one step: the updated velocity moves the body.
    pub open spec fn next_x(&self, dt: int) -> int {
        self.x + self.next_vx(dt) * dt
    }

    pub open spec fn next_y(&self, dt: int) -> int {
        self.y + self.next_vy(dt) * dt
    }

    /// Whether one step of length `dt` keeps the body in range.
    pub open spec fn can_advance(&self, dt: int) -> bool {
        &&& vel_ok(self.next_vx(dt))
        &&& vel_ok(self.next_vy(dt))
        &&& coord_ok(self.next_x(dt))
        &&& coord_ok(self.next_y(dt))
    }

    /// The body after one step of length `dt`, with its force cleared.
    pub open spec fn advanced(&self, dt: int) -> Body {
        Body {
            x: self.next_x(dt) as i64,
            y: self.next_y(dt) as i64,
            vx: self.next_vx(dt) as i64,
            vy: self.next_vy(dt) as i64,
            fx: 0,
            fy: 0,
            ..*self
        }
    }

    pub open spec fn touches(&self, o: &Body) -> bool {
        crate::geometry::touching(
            self.x as int,
            self.y as int,
            self.radius as int,
            o.x as int,
            o.y as int,
            o.radius as int,
        )
    }

    /// Whether this body overlaps or touches `o`.
    pub fn collides_with(&self, o: &Body) -> (r: bool)
        requires
            self.ok(),
            o.ok(),
        ensures
            r == self.touches(o),
    {
        crate::geometry::check_collision(self.x, self.y, self.radius, o.x, o.y, o.radius)
    }

    /// One step of semi-implicit Euler motion: the velocity takes the
    /// accumulated force first, then the position takes the new velocity, and
    /// the force is cleared. `None` when the result would leave the
    /// representable range.
    pub fn update(&self, dt: u64) -> (r: Option<Body>)
        requires
            self.ok(),
            dt <= DT_MAX,
        ensures
            r.is_some() <==> self.can_advance(dt as int),
            r.is_some() ==> r.unwrap() == self.advanced(dt as int),
            r.is_some() ==> r.unwrap().ok(),
    {
        let d: i128 = dt as i128;
        let m: i128 = self.mass as i128;
        assert(-0x4000_0000_0000_0000_0000_0000_0000_0000 <= self.fx * d
            <= 0x4000_0000_0000_0000_0000_0000_0000_0000) by (nonlinear_arith)
            requires
                acc_ok(self.fx as int), 0 <= d <= 0x100;
        assert(-0x4000_0000_0000_0000_0000_0000_0000_0000 <= self.fy * d
            <= 0x4000_0000_0000_0000_0000_0000_0000_0000) by (nonlinear_arith)
            requires
                acc_ok(self.fy as int), 0 <= d <= 0x100;
        let ax = trunc_div(self.fx * d, m);
        let ay = trunc_div(self.fy * d, m);
        proof {
            lemma_tdiv_bound(self.fx * d, m as int);
            lemma_tdiv_bound(self.fy * d, m as int);
        }
        let vx: i128 = self.vx as i128 + ax;
        let vy: i128 = self.vy as i128 + ay;
        if vx < -(VEL_MAX as i128) || vx > VEL_MAX as i128 || vy < -(VEL_MAX as i128) || vy
            > VEL_MAX as i128 {
            return None;
        }
        assert(-0x80_0000_0000 <= vx * d <= 0x80_0000_0000) by (nonlinear_arith)
            requires
                vel_ok(vx as int), 0 <= d <= 0x100;
        assert(-0x80_0000_0000 <= vy * d <= 0x80_0000_0000) by (nonlinear_arith)
            requires
                vel_ok(vy as int), 0 <= d <= 0x100;
        let x: i128 = self.x as i128 + vx * d;
        let y: i128 = self.y as i128 + vy * d;
        if x < -(COORD_MAX as i128) || x > COORD_MAX as i128 || y < -(COORD_MAX as i128) || y
            > COORD_MAX as i128 {
            return None;
        }
        Some(Body { x: x as i64, y: y as i64, vx: vx as i64, vy: vy as i64, fx: 0, fy: 0, ..*self })
    }
}

/// Distance used by the gravity law: the integer square root of the squared
/// distance, floored at one so that coincident centres give no division by
/// zero.
pub open spec fn grav_dist(a: Body, b: Body) -> int {
    let r = root(dist_sq(a.x as int, a.y as int, b.x as int, b.y as int));
    if r <= 0 {
        1
    } else {
        r
    }
}

/// Force that `b` exerts on `a` along one axis, whose displacement from `a`
/// to `b` is `d`: `G * ma * mb / r^2` along the unit vector `d / r`, rounded
/// toward zero.
pub open spec fn pull(g: int, a: Body, b: Body, d: int) -> int {
    tdiv(g * a.mass * b.mass * d, cube(grav_dist(a, b)))
}

pub open spec fn pull_x(g: int, a: Body, b: Body) -> int {
    pull(g, a, b, b.x - a.x)
}

pub open spec fn pull_y(g: int, a: Body, b: Body) -> int {
    pull(g, a, b, b.y - a.y)
}

/// Touching is symmetric.
pub proof fn lemma_touches_symmetric(a: Body, b: Body)
    ensures
        a.touches(&b) == b.touches(&a),
{
    assert(dist_sq(a.x as int, a.y as int, b.x as int, b.y as int) == dist_sq(
        b.x as int,
        b.y as int,
        a.x as int,
        a.y as int,
    )) by (nonlinear_arith);
    assert(crate::geometry::sq(a.radius + b.radius) == crate::geometry::sq(b.radius + a.radius));
}

/// The pull between two bodies in range is bounded by `PAIR_FORCE_MAX` on
/// each axis.
pub proof fn lemma_pull_bound(g: int, a: Body, b: Body)
    requires
        0 <= g <= G_MAX,
        a.ok(),
        b.ok(),
    ensures
        abs(pull_x(g, a, b)) <= PAIR_FORCE_MAX,
        abs(pull_y(g, a, b)) <= PAIR_FORCE_MAX,
{
    let (ma, mb) = (a.mass as int, b.mass as int);
    let (dx, dy) = (b.x - a.x, b.y - a.y);
    assert(0 <= g * ma <= 0x100_0000_0000) by (nonlinear_arith)
        requires
            0 <= g <= 0x1_0000, 0 <= ma <= 0x100_0000;
    assert(0 <= g * ma * mb <= 0x1_0000_0000_0000_0000) by (nonlinear_arith)
        requires
            0 <= g * ma <= 0x100_0000_0000, 0 <= mb <= 0x100_0000;
    assert(abs(g * ma * mb * dx) <= PAIR_FORCE_MAX) by (nonlinear_arith)
        requires
            0 <= g * ma * mb <= 0x1_0000_0000_0000_0000, -0x1_0000_0000 <= dx <= 0x1_0000_0000;
    assert(abs(g * ma * mb * dy) <= PAIR_FORCE_MAX) by (nonlinear_arith)
        requires
            0 <= g * ma * mb <= 0x1_0000_0000_0000_0000, -0x1_0000_0000 <= dy <= 0x1_0000_0000;
    let gd = grav_dist(a, b);
    assert(cube(gd) >= 1) by (nonlinear_arith)
        requires
            gd >= 1;
    lemma_tdiv_bound(g * ma * mb * dx, cube(gd));
    lemma_tdiv_bound(g * ma * mb * dy, cube(gd));
}

/// Two bodies that differ at most in their accumulated force.
pub open spec fn same_but_force(a: Body, b: Body) -> bool {
    a == Body { fx: a.fx, fy: a.fy, ..b }
}

/// The pull depends on positions and masses alone.
pub proof fn lemma_pull_same(g: int, a: Body, b: Body, a2: Body, b2: Body)
    requires
        same_but_force(a2, a),
        same_but_force(b2, b),
    ensures
        pull_x(g, a2, b2) == pull_x(g, a, b),
        pull_y(g, a2, b2) == pull_y(g, a, b),
{
    assert(grav_dist(a2, b2) == grav_dist(a, b));
}

/// Newton's third law: the pull of `a` on `b` is the opposite of the pull of
/// `b` on `a`.
pub proof fn lemma_pull_opposite(g: int, a: Body, b: Body)
    ensures
        pull_x(g, b, a) == -pull_x(g, a, b),
        pull_y(g, b, a) == -pull_y(g, a, b),
{
    let dx = b.x - a.x;
    let dy = b.y - a.y;
    assert(dist_sq(b.x as int, b.y as int, a.x as int, a.y as int) == dist_sq(
        a.x as int,
        a.y as int,
        b.x as int,
        b.y as int,
    )) by (nonlinear_arith);
    let c = cube(grav_dist(a, b));
    assert(grav_dist(b, a) == grav_dist(a, b));
    let (ma, mb) = (a.mass as int, b.mass as int);
    assert(g * mb * ma * (a.x - b.x) == -(g * ma * mb * dx)) by (nonlinear_arith)
        requires
            dx == b.x - a.x;
    assert(g * mb * ma * (a.y - b.y) == -(g * ma * mb * dy)) by (nonlinear_arith)
        requires
            dy == b.y - a.y;
    let gd = grav_dist(a, b);
    assert(c > 0) by (nonlinear_arith)
        requires
            c == cube(gd), gd >= 1;
    lemma_tdiv_neg(g * ma * mb * dx, c);
    lemma_tdiv_neg(g * ma * mb * dy, c);
}

/// Force that `b` exerts on `a`, as its two components; each is bounded by
/// `PAIR_FORCE_MAX`.
pub fn pair_force(g: u64, a: &Body, b: &Body) -> (f: (i128, i128))
    requires
        g <= G_MAX,
        a.ok(),
        b.ok(),
    ensures
        f.0 == pull_x(g as int, *a, *b),
        f.1 == pull_y(g as int, *a, *b),
        abs(f.0 as int) <= PAIR_FORCE_MAX,
        abs(f.1 as int) <= PAIR_FORCE_MAX,
{
    let dx: i128 = b.x as i128 - a.x as i128;
    let dy: i128 = b.y as i128 - a.y as i128;
    assert(0 <= dx * dx <= 0x1_0000_0000_0000_0000) by (nonlinear_arith)
        requires
            -0x1_0000_0000 <= dx <= 0x1_0000_0000;
    assert(0 <= dy * dy <= 0x1_0000_0000_0000_0000) by (nonlinear_arith)
        requires
            -0x1_0000_0000 <= dy <= 0x1_0000_0000;
    let r2: u128 = (dx * dx) as u128 + (dy * dy) as u128;
    let r = isqrt(r2);
    proof {
        lemma_root_unique(r2 as int, r as int);
        assert(r < 0x2_0000_0000) by (nonlinear_arith)
            requires
                r * r <= r2, r2 <= 0x2_0000_0000_0000_0000, r >= 0;
    }
    let rr: i128 = if r == 0 { 1 } else { r as i128 };
    assert(rr * rr <= 0x4_0000_0000_0000_0000) by (nonlinear_arith)
        requires
            1 <= rr <= 0x2_0000_0000;
    assert(1 <= rr * rr * rr <= 0x8_0000_0000_0000_0000_0000_0000) by (nonlinear_arith)
        requires
            1 <= rr <= 0x2_0000_0000, rr * rr <= 0x4_0000_0000_0000_0000;
    let c: i128 = rr * rr * rr;
    let gi: i128 = g as i128;
    let ma: i128 = a.mass as i128;
    let mb: i128 = b.mass as i128;
    assert(0 <= gi * ma <= 0x100_0000_0000) by (nonlinear_arith)
        requires
            0 <= gi <= 0x1_0000, 0 <= ma <= 0x100_0000;
    let gm: i128 = gi * ma;
    assert(0 <= gm * mb <= 0x1_0000_0000_0000_0000) by (nonlinear_arith)
        requires
            0 <= gm <= 0x100_0000_0000, 0 <= mb <= 0x100_0000;
    let gmm: i128 = gm * mb;
    assert(-PAIR_FORCE_MAX <= gmm * dx <= PAIR_FORCE_MAX) by (nonlinear_arith)
        requires
            0 <= gmm <= 0x1_0000_0000_0000_0000, -0x1_0000_0000 <= dx <= 0x1_0000_0000;
    assert(-PAIR_FORCE_MAX <= gmm * dy <= PAIR_FORCE_MAX) by (nonlinear_arith)
        requires
            0 <= gmm <= 0x1_0000_0000_0000_0000, -0x1_0000_0000 <= dy <= 0x1_0000_0000;
    let fx = trunc_div(gmm * dx, c);
    let fy = trunc_div(gmm * dy, c);
    proof {
        lemma_tdiv_bound(gmm * dx, c as int);
        lemma_tdiv_bound(gmm * dy, c as int);
        assert(grav_dist(*a, *b) == rr);
    }
    (fx, fy)
}

/// Applies the gravity between two bodies: the force that `pl2` exerts on
/// `pl1` is added to `pl1`'s accumulator and taken from `pl2`'s, so the two
/// receive equal and opposite forces.
pub fn newtonian_grav(g: u64, pl1: &mut Body, pl2: &mut Body)
    requires
        g <= G_MAX,
        old(pl1).ok(),
        old(pl2).ok(),
        abs(old(pl1).fx as int) <= ACC_MAX - PAIR_FORCE_MAX,
        abs(old(pl1).fy as int) <= ACC_MAX - PAIR_FORCE_MAX,
        abs(old(pl2).fx as int) <= ACC_MAX - PAIR_FORCE_MAX,
        abs(old(pl2).fy as int) <= ACC_MAX - PAIR_FORCE_MAX,
    ensures
        final(pl1).fx == old(pl1).fx + pull_x(g as int, *old(pl1), *old(pl2)),
        final(pl1).fy == old(pl1).fy + pull_y(g as int, *old(pl1), *old(pl2)),
        final(pl2).fx == old(pl2).fx - pull_x(g as int, *old(pl1), *old(pl2)),
        final(pl2).fy == old(pl2).fy - pull_y(g as int, *old(pl1), *old(pl2)),
        abs(pull_x(g as int, *old(pl1), *old(pl2))) <= PAIR_FORCE_MAX,
        abs(pull_y(g as int, *old(pl1), *old(pl2))) <= PAIR_FORCE_MAX,
        final(pl2).fx - old(pl2).fx == -(final(pl1).fx - old(pl1).fx),
        final(pl2).fy - old(pl2).fy == -(final(pl1).fy - old(pl1).fy),
        *final(pl1) == (Body { fx: final(pl1).fx, fy: final(pl1).fy, ..*old(pl1) }),
        *final(pl2) == (Body { fx: final(pl2).fx, fy: final(pl2).fy, ..*old(pl2) }),
{
    let f = pair_force(g, pl1, pl2);
    pl1.fx = pl1.fx + f.0;
    pl1.fy = pl1.fy + f.1;
    pl2.fx = pl2.fx - f.0;
    pl2.fy = pl2.fy - f.1;
}

} // verus!
