//! The merge phase of a step: bodies that share a collision group are
//! removed, and each group is replaced by one merged body with a fresh id.
use crate::body::Body;
use crate::merge::{all_ok, collide_planets, merged, mergeable, MAX_BODIES};
use crate::world::ids_unique;
use vstd::prelude::*;

verus! {

/// Whether body `k` shares its group with another body.
pub open spec fn in_group(ls: Seq<usize>, k: int) -> bool {
    exists|m: int| 0 <= m < ls.len() && m != k && ls[m] == ls[k]
}

/// Whether body `k` is the first member of its group.
pub open spec fn is_leader(ls: Seq<usize>, k: int) -> bool {
    in_group(ls, k) && forall|m: int| 0 <= m < k ==> ls[m] != ls[k]
}

/// Survivors, created bodies and removed ids after the first `n` bodies.
pub type Resolution = (Seq<Body>, Seq<Body>, Seq<u64>);

/// Walks the first `n` bodies in order: one outside any group survives; one
/// in a group is removed, and the first member of each group brings the
/// group's merged body, whose id is the next unused one.
pub open spec fn resolve(bs: Seq<Body>, ls: Seq<usize>, n: int, next_id: int) -> Resolution
    decreases n,
{
    if n <= 0 {
        (Seq::empty(), Seq::empty(), Seq::empty())
    } else {
        let prev = resolve(bs, ls, n - 1, next_id);
        let k = n - 1;
        if !in_group(ls, k) {
            (prev.0.push(bs[k]), prev.1, prev.2)
        } else if is_leader(ls, k) {
            (
                prev.0,
                prev.1.push(merged(bs, ls, ls[k], (next_id + prev.1.len()) as u64)),
                prev.2.push(bs[k].id),
            )
        } else {
            (prev.0, prev.1, prev.2.push(bs[k].id))
        }
    }
}

/// Whether every merged body among the first `n` is in range and has an id.
pub open spec fn resolvable(bs: Seq<Body>, ls: Seq<usize>, n: int, next_id: int) -> bool
    decreases n,
{
    if n <= 0 {
        true
    } else {
        let k = n - 1;
        &&& resolvable(bs, ls, n - 1, next_id)
        &&& is_leader(ls, k) ==> {
            &&& next_id + resolve(bs, ls, n - 1, next_id).1.len() < u64::MAX
            &&& mergeable(bs, ls, ls[k])
        }
    }
}

proof fn lemma_resolvable_prefix(bs: Seq<Body>, ls: Seq<usize>, n: int, m: int, next_id: int)
    requires
        m <= n,
        resolvable(bs, ls, n, next_id),
    ensures
        resolvable(bs, ls, m, next_id),
    decreases n - m,
{
    if m < n {
        lemma_resolvable_prefix(bs, ls, n - 1, m, next_id);
    }
}

fn has_partner(labels: &Vec<usize>, k: usize) -> (r: bool)
    requires
        k < labels.len(),
    ensures
        r == in_group(labels@, k as int),
{
    let mut m: usize = 0;
    while m < labels.len()
        invariant
            k < labels.len(),
            m <= labels.len(),
            forall|p: int| 0 <= p < m && p != k ==> labels@[p] != labels@[k as int],
        decreases labels.len() - m,
    {
        if m != k && labels[m] == labels[k] {
            return true;
        }
        m = m + 1;
    }
    false
}

fn is_first_of_label(labels: &Vec<usize>, k: usize) -> (r: bool)
    requires
        k < labels.len(),
    ensures
        r == forall|m: int| 0 <= m < k ==> labels@[m] != labels@[k as int],
{
    let mut m: usize = 0;
    while m < k
        invariant
            k < labels.len(),
            m <= k,
            forall|p: int| 0 <= p < m ==> labels@[p] != labels@[k as int],
        decreases k - m,
    {
        if labels[m] == labels[k] {
            return false;
        }
        m = m + 1;
    }
    true
}

/// Replaces every collision group by its merged body. Returns the survivors
/// in order, the merged bodies in the order of their groups' first members,
/// and the removed ids; `None` when a merged body would leave the
/// representable range or the ids run out.
pub fn resolve_collisions(bodies: &Vec<Body>, labels: &Vec<usize>, next_id: u64) -> (r: Option<
    (Vec<Body>, Vec<Body>, Vec<u64>),
>)
    requires
        all_ok(bodies@),
        ids_unique(bodies@),
        bodies.len() == labels.len() <= MAX_BODIES,
    ensures
        r.is_some() <==> resolvable(bodies@, labels@, bodies.len() as int, next_id as int),
        r.is_some() ==> {
            let (s, c, rm) = r.unwrap();
            &&& (s@, c@, rm@) == resolve(bodies@, labels@, bodies.len() as int, next_id as int)
            &&& all_ok(c@)
            &&& forall|t: int| 0 <= t < c.len() ==> (#[trigger] c@[t]).id == next_id + t
            &&& forall|t: int| 0 <= t < c.len() ==> (#[trigger] c@[t]).fx == 0 && c@[t].fy == 0
            &&& next_id + c.len() <= u64::MAX
            &&& s.len() + c.len() <= bodies.len()
            &&& forall|t: int| 0 <= t < s.len() ==> exists|m: int| 0 <= m < bodies.len() && #[trigger] s@[t] == bodies@[m]
            &&& ids_unique(s@)
        },
{
    let n = bodies.len();
    let ghost bs = bodies@;
    let ghost ls = labels@;
    let mut surv: Vec<Body> = Vec::new();
    let mut created: Vec<Body> = Vec::new();
    let mut removed: Vec<u64> = Vec::new();
    let mut k: usize = 0;
    while k < n
        invariant
            n == bs.len(),
            bs == bodies@,
            ls == labels@,
            all_ok(bs),
            n == ls.len() <= MAX_BODIES,
            k <= n,
            (surv@, created@, removed@) == resolve(bs, ls, k as int, next_id as int),
            resolvable(bs, ls, k as int, next_id as int),
            all_ok(created@),
            forall|t: int| 0 <= t < created.len() ==> (#[trigger] created@[t]).id == next_id + t,
            forall|t: int| 0 <= t < created.len() ==> (#[trigger] created@[t]).fx == 0 && created@[t].fy == 0,
            next_id + created.len() <= u64::MAX,
            surv.len() + created.len() <= k,
            forall|t: int| 0 <= t < surv.len() ==> exists|m: int| 0 <= m < k && #[trigger] surv@[t] == bs[m],
            ids_unique(bs),
            ids_unique(surv@),
        decreases n - k,
    {
        let ghost prev_surv = surv@;
        let ghost prev_created = created@;
        if !has_partner(labels, k) {
            surv.push(bodies[k]);
            proof {
                assert forall|t: int| 0 <= t < surv.len() implies exists|m: int| 0 <= m < k + 1 && #[trigger] surv@[t] == bs[m] by {
                    if t < prev_surv.len() {
                        assert(surv@[t] == prev_surv[t]);
                    } else {
                        assert(surv@[t] == bs[k as int]);
                    }
                }
                assert forall|a: int, b: int| 0 <= a < surv.len() && 0 <= b < surv.len() && a != b
                    implies surv@[a].id != surv@[b].id by {
                    if a < prev_surv.len() && b < prev_surv.len() {
                        assert(surv@[a] == prev_surv[a] && surv@[b] == prev_surv[b]);
                    } else if a < prev_surv.len() {
                        assert(surv@[a] == prev_surv[a]);
                        let ma = choose|ma: int| 0 <= ma < k && #[trigger] prev_surv[a] == bs[ma];
                        assert(surv@[b] == bs[k as int]);
                    } else {
                        assert(surv@[b] == prev_surv[b]);
                        let mb = choose|mb: int| 0 <= mb < k && #[trigger] prev_surv[b] == bs[mb];
                        assert(surv@[a] == bs[k as int]);
                    }
                }
            }
        } else {
            if is_first_of_label(labels, k) {
                let c = created.len();
                if next_id >= u64::MAX - c as u64 {
                    proof {
                        if resolvable(bs, ls, n as int, next_id as int) {
                            lemma_resolvable_prefix(bs, ls, n as int, k + 1, next_id as int);
                        }
                    }
                    return None;
                }
                match collide_planets(bodies, labels, k, next_id + c as u64) {
                    None => {
                        proof {
                            if resolvable(bs, ls, n as int, next_id as int) {
                                lemma_resolvable_prefix(bs, ls, n as int, k + 1, next_id as int);
                            }
                        }
                        return None;
                    },
                    Some(b) => {
                        created.push(b);
                        proof {
                            assert forall|t: int| 0 <= t < created.len() implies (#[trigger] created@[t]).ok() by {
                                if t < c {
                                    assert(created@[t] == prev_created[t]);
                                }
                            }
                        }
                    },
                }
            }
            removed.push(bodies[k].id);
            proof {
                assert forall|t: int| 0 <= t < surv.len() implies exists|m: int| 0 <= m < k + 1 && #[trigger] surv@[t] == bs[m] by {
                    assert(surv@[t] == prev_surv[t]);
                }
            }
        }
        k = k + 1;
    }
    Some((surv, created, removed))
}

} // verus!
