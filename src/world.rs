//! The simulation: a registry of bodies with stable ids, and the step that
//! accumulates gravity, merges colliding groups and moves every body.
use crate::body::{same_but_force, Body, DT_MAX, G_MAX, MASS_MAX, RADIUS_MAX, VEL_MAX, vel_ok};
use crate::resolve::{resolvable, resolve, resolve_collisions, Resolution};
use crate::scan::{accumulate, scanned};
use crate::geometry::{coord_ok, COORD_MAX};
use crate::merge::{all_ok, MAX_BODIES};
use vstd::prelude::*;

verus! {

/// Why an operation on the world was refused.
#[derive(Clone, Copy, Debug, PartialEq, Eq)]
pub enum SimError {
    /// No live body has the given id.
    NotFound,
    /// A body to add has zero mass or radius, or values out of range.
    InvalidBody,
    /// The world already holds `MAX_BODIES` bodies, or has used every id.
    Full,
    /// The step would carry a body out of the representable range.
    OutOfRange,
}

/// A set of bodies in insertion order, the next id to hand out, and the
/// gravitational constant.
pub struct World {
    pub bodies: Vec<Body>,
    pub next_id: u64,
    pub g: u64,
}

pub open spec fn ids_unique(bs: Seq<Body>) -> bool {
    forall|i: int, j: int| 0 <= i < bs.len() && 0 <= j < bs.len() && i != j ==> bs[i].id != bs[j].id
}

pub open spec fn ids_below(bs: Seq<Body>, bound: int) -> bool {
    forall|k: int| 0 <= k < bs.len() ==> (#[trigger] bs[k]).id < bound
}

pub open spec fn forces_clear(bs: Seq<Body>) -> bool {
    forall|k: int| 0 <= k < bs.len() ==> (#[trigger] bs[k]).fx == 0 && bs[k].fx == bs[k].fy
}

pub open spec fn ids_of(bs: Seq<Body>) -> Seq<u64> {
    bs.map_values(|b: Body| b.id)
}

/// What a step changed: the ids it removed and the ids it created, in order.
pub struct StepReport {
    pub removed: Vec<u64>,
    pub created: Vec<u64>,
}

pub open spec fn all_can_advance(xs: Seq<Body>, dt: int) -> bool {
    forall|k: int| 0 <= k < xs.len() ==> (#[trigger] xs[k]).can_advance(dt)
}

pub open spec fn advance_all(xs: Seq<Body>, dt: int) -> Seq<Body> {
    xs.map_values(|b: Body| b.advanced(dt))
}

impl World {
    /// Survivors, merged bodies and removed ids of a step from this world.
    pub open spec fn step_parts(&self) -> Resolution {
        let st = scanned(self.g as int, self.bodies@);
        resolve(st.0, st.1, self.bodies.len() as int, self.next_id as int)
    }

    /// Whether a step of length `dt` keeps every body in range.
    pub open spec fn can_step(&self, dt: int) -> bool {
        let st = scanned(self.g as int, self.bodies@);
        let parts = self.step_parts();
        &&& resolvable(st.0, st.1, self.bodies.len() as int, self.next_id as int)
        &&& all_can_advance(parts.0 + parts.1, dt)
    }

    /// Every body is in range and unforced, ids are distinct and below the
    /// next id, and the world is within its size limit.
    pub open spec fn wf(&self) -> bool {
        &&& all_ok(self.bodies@)
        &&& forces_clear(self.bodies@)
        &&& ids_unique(self.bodies@)
        &&& ids_below(self.bodies@, self.next_id as int)
        &&& self.bodies.len() <= MAX_BODIES
        &&& self.g <= G_MAX
    }

    /// An empty world with gravitational constant `g`.
    pub fn new(g: u64) -> (w: World)
        requires
            g <= G_MAX,
        ensures
            w.wf(),
            w.bodies@.len() == 0,
            w.next_id == 0,
            w.g == g,
    {
        World { bodies: Vec::new(), next_id: 0, g }
    }

    /// Adds a body and returns its id, the next one never handed out before.
    /// The velocity defaults to zero; the caller chooses the mass.
    pub fn spawn(&mut self, x: i64, y: i64, velocity: Option<(i64, i64)>, mass: u64, radius: u64) -> (r: Result<u64, SimError>)
        requires
            old(self).wf(),
        ensures
            final(self).wf(),
            final(self).g == old(self).g,
            ({
                let (vx, vy) = match velocity {
                    Some(v) => v,
                    None => (0i64, 0i64),
                };
                let valid = coord_ok(x as int) && coord_ok(y as int) && vel_ok(vx as int) && vel_ok(vy as int)
                    && 1 <= mass <= MASS_MAX && 1 <= radius <= RADIUS_MAX;
                let room = old(self).bodies.len() < MAX_BODIES && old(self).next_id < u64::MAX;
                &&& !valid ==> r == Err::<u64, SimError>(SimError::InvalidBody)
                &&& valid && !room ==> r == Err::<u64, SimError>(SimError::Full)
                &&& r.is_err() ==> *final(self) == *old(self)
                &&& valid && room ==> {
                    &&& r == Ok::<u64, SimError>(old(self).next_id)
                    &&& final(self).next_id == old(self).next_id + 1
                    &&& final(self).bodies@ == old(self).bodies@.push(Body {
                        id: old(self).next_id,
                        x,
                        y,
                        vx,
                        vy,
                        fx: 0,
                        fy: 0,
                        mass,
                        radius,
                    })
                }
            }),
    {
        let (vx, vy) = match velocity {
            Some(v) => v,
            None => (0i64, 0i64),
        };
        if x < -COORD_MAX || x > COORD_MAX || y < -COORD_MAX || y > COORD_MAX || vx < -VEL_MAX
            || vx > VEL_MAX || vy < -VEL_MAX || vy > VEL_MAX || mass < 1 || mass > MASS_MAX
            || radius < 1 || radius > RADIUS_MAX {
            return Err(SimError::InvalidBody);
        }
        if self.bodies.len() >= MAX_BODIES || self.next_id == u64::MAX {
            return Err(SimError::Full);
        }
        let id = self.next_id;
        let b = Body { id, x, y, vx, vy, fx: 0, fy: 0, mass, radius };
        self.bodies.push(b);
        self.next_id = id + 1;
        proof {
            let bs = self.bodies@;
            assert(forall|k: int| 0 <= k < bs.len() - 1 ==> bs[k] == old(self).bodies@[k]);
            assert(bs[bs.len() - 1] == b);
        }
        Ok(id)
    }

    /// Index of the live body with the given id.
    pub fn find(&self, id: u64) -> (r: Option<usize>)
        requires
            self.wf(),
        ensures
            r.is_none() <==> !ids_of(self.bodies@).contains(id),
            r.is_some() ==> r.unwrap() < self.bodies.len() && self.bodies@[r.unwrap() as int].id == id,
    {
        let mut k: usize = 0;
        while k < self.bodies.len()
            invariant
                k <= self.bodies.len(),
                forall|m: int| 0 <= m < k ==> (#[trigger] self.bodies@[m]).id != id,
            decreases self.bodies.len() - k,
        {
            if self.bodies[k].id == id {
                proof {
                    assert(ids_of(self.bodies@)[k as int] == id);
                }
                return Some(k);
            }
            k = k + 1;
        }
        proof {
            if ids_of(self.bodies@).contains(id) {
                let m = choose|m: int| 0 <= m < ids_of(self.bodies@).len() && ids_of(self.bodies@)[m] == id;
                assert(self.bodies@[m].id == id);
            }
        }
        None
    }

    /// Removes the body with the given id; the other bodies keep their ids and
    /// their order.
    pub fn despawn(&mut self, id: u64) -> (r: Result<(), SimError>)
        requires
            old(self).wf(),
        ensures
            final(self).wf(),
            final(self).next_id == old(self).next_id,
            final(self).g == old(self).g,
            r.is_err() <==> !ids_of(old(self).bodies@).contains(id),
            r.is_err() ==> r == Err::<(), SimError>(SimError::NotFound) && *final(self) == *old(self),
            r.is_ok() ==> exists|k: int|
                0 <= k < old(self).bodies.len() && old(self).bodies@[k].id == id
                    && final(self).bodies@ == old(self).bodies@.remove(k),
            !ids_of(final(self).bodies@).contains(id),
    {
        match self.find(id) {
            None => Err(SimError::NotFound),
            Some(k) => {
                let ghost before = self.bodies@;
                self.bodies.remove(k);
                proof {
                    let bs = self.bodies@;
                    assert(bs == before.remove(k as int));
                    assert forall|m: int| 0 <= m < bs.len() implies (#[trigger] bs[m]).id != id by {
                        if m < k {
                            assert(bs[m] == before[m]);
                        } else {
                            assert(bs[m] == before[m + 1]);
                        }
                    }
                    if ids_of(bs).contains(id) {
                        let m = choose|m: int| 0 <= m < ids_of(bs).len() && ids_of(bs)[m] == id;
                        assert(bs[m].id == id);
                    }
                    assert forall|i: int, j: int| 0 <= i < bs.len() && 0 <= j < bs.len() && i != j
                        implies bs[i].id != bs[j].id by {
                        let bi = if i < k { i } else { i + 1 };
                        let bj = if j < k { j } else { j + 1 };
                        assert(bs[i] == before[bi]);
                        assert(bs[j] == before[bj]);
                    }
                    assert forall|m: int| 0 <= m < bs.len() implies (#[trigger] bs[m]).ok() && bs[m].fx == 0
                        && bs[m].fx == bs[m].fy && bs[m].id < self.next_id by {
                        let bm = if m < k { m } else { m + 1 };
                        assert(bs[m] == before[bm]);
                    }
                }
                Ok(())
            },
        }
    }

    /// Advances the world by one step of length `dt`: every unordered pair
    /// of bodies either collides or exchanges gravity; each group of
    /// colliding bodies is replaced by one merged body with a fresh id; then
    /// every body, survivors first and merged bodies after, takes its force
    /// and moves. On failure nothing changes.
    pub fn step(&mut self, dt: u64) -> (r: Result<StepReport, SimError>)
        requires
            old(self).wf(),
            dt <= DT_MAX,
        ensures
            final(self).wf(),
            final(self).g == old(self).g,
            r.is_ok() <==> old(self).can_step(dt as int),
            r.is_err() ==> r == Err::<StepReport, SimError>(SimError::OutOfRange) && *final(self) == *old(self),
            r.is_ok() ==> {
                let parts = old(self).step_parts();
                &&& final(self).bodies@ == advance_all(parts.0 + parts.1, dt as int)
                &&& final(self).next_id == old(self).next_id + parts.1.len()
                &&& r.unwrap().removed@ == parts.2
                &&& r.unwrap().created@ == ids_of(parts.1)
                &&& forall|t: int| 0 <= t < parts.1.len() ==> (#[trigger] r.unwrap().created@[t]) == old(self).next_id + t
            },
    {
        let ghost w0 = *self;
        let (cur, labels) = accumulate(self.g, &self.bodies);
        proof {
            assert forall|i: int, j: int| 0 <= i < cur.len() && 0 <= j < cur.len() && i != j
                implies cur@[i].id != cur@[j].id by {
                assert(same_but_force(cur@[i], self.bodies@[i]));
                assert(same_but_force(cur@[j], self.bodies@[j]));
            }
        }
        let res = resolve_collisions(&cur, &labels, self.next_id);
        let (surv, created, removed) = match res {
            None => {
                return Err(SimError::OutOfRange);
            },
            Some(t) => t,
        };
        let ghost both = surv@ + created@;
        proof {
            assert(both == w0.step_parts().0 + w0.step_parts().1);
        }
        proof {
            assert forall|t: int| 0 <= t < both.len() implies (#[trigger] both[t]).ok() && both[t].id < self.next_id
                + created.len() by {
                if t < surv.len() {
                    assert(both[t] == surv@[t]);
                    let m = choose|m: int| 0 <= m < cur.len() && #[trigger] surv@[t] == cur@[m];
                    assert(cur@[m].ok());
                    assert(same_but_force(cur@[m], self.bodies@[m]));
                    assert(self.bodies@[m].id < self.next_id);
                } else {
                    assert(both[t] == created@[t - surv.len()]);
                }
            }
            assert forall|i: int, j: int| 0 <= i < both.len() && 0 <= j < both.len() && i != j
                implies both[i].id != both[j].id by {
                if i < surv.len() && j < surv.len() {
                    assert(both[i] == surv@[i] && both[j] == surv@[j]);
                } else if i >= surv.len() && j >= surv.len() {
                    assert(both[i] == created@[i - surv.len()] && both[j] == created@[j - surv.len()]);
                } else {
                    let s = if i < surv.len() { i } else { j };
                    let m = choose|m: int| 0 <= m < cur.len() && #[trigger] surv@[s] == cur@[m];
                    assert(same_but_force(cur@[m], self.bodies@[m]));
                    assert(self.bodies@[m].id < self.next_id);
                    assert(both[s] == surv@[s]);
                    let c = if i < surv.len() { j } else { i };
                    assert(both[c] == created@[c - surv.len()]);
                }
            }
        }
        let mut all: Vec<Body> = surv;
        let mut more: Vec<Body> = created;
        let n_created = more.len();
        let ghost created_seq = more@;
        all.append(&mut more);
        assert(all@ == both);
        let mut out: Vec<Body> = Vec::new();
        let mut k: usize = 0;
        while k < all.len()
            invariant
                all@ == both,
                k <= all.len(),
                dt <= DT_MAX,
                out.len() == k,
                forall|t: int| 0 <= t < both.len() ==> (#[trigger] both[t]).ok(),
                forall|t: int| 0 <= t < k ==> out@[t] == (#[trigger] both[t]).advanced(dt as int) && out@[t].ok(),
                forall|t: int| 0 <= t < k ==> (#[trigger] both[t]).can_advance(dt as int),
                *self == w0,
                w0.wf(),
                both == w0.step_parts().0 + w0.step_parts().1,
            decreases all.len() - k,
        {
            match all[k].update(dt) {
                None => {
                    return Err(SimError::OutOfRange);
                },
                Some(b) => {
                    out.push(b);
                },
            }
            k = k + 1;
        }
        proof {
            assert(out@ =~= advance_all(both, dt as int));
        }
        let base = self.next_id;
        let mut created_ids: Vec<u64> = Vec::new();
        let mut t: usize = 0;
        while t < n_created
            invariant
                t <= n_created,
                n_created == created_seq.len(),
                base + n_created <= u64::MAX,
                forall|q: int| 0 <= q < n_created ==> (#[trigger] created_seq[q]).id == base + q,
                created_ids@ =~= ids_of(created_seq).take(t as int),
            decreases n_created - t,
        {
            created_ids.push(base + t as u64);
            t = t + 1;
            assert(created_ids@ =~= ids_of(created_seq).take(t as int));
        }
        assert(created_ids@ =~= ids_of(created_seq));
        self.bodies = out;
        self.next_id = base + n_created as u64;
        Ok(StepReport { removed, created: created_ids })
    }

    /// A copy of the bodies, in order.
    pub fn snapshot(&self) -> (r: Vec<Body>)
        ensures
            r@ == self.bodies@,
    {
        self.bodies.clone()
    }
}

} // verus!
