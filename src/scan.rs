//! The all-pairs pass of a step: every unordered pair of bodies is tested
//! once, and either joins the collision groups or exchanges gravity.
use crate::body::{
    lemma_pull_bound, lemma_pull_opposite, lemma_pull_same, lemma_touches_symmetric, pull_x,
    pull_y, same_but_force, Body, newtonian_grav, ACC_MAX, G_MAX, PAIR_FORCE_MAX,
};
use crate::arith::abs;
use crate::grouping::{joined, put_in_collision_group};
use crate::merge::{all_ok, MAX_BODIES};
use vstd::prelude::*;

verus! {

/// Bodies with their forces so far, and the collision-group labels so far.
pub type ScanState = (Seq<Body>, Seq<usize>);

/// Each body starts alone in its own group.
pub open spec fn identity_labels(n: nat) -> Seq<usize> {
    Seq::new(n, |k: int| k as usize)
}

/// The effect of testing the pair `(i, j)` of the original bodies `bs`:
/// touching bodies join groups; others receive equal and opposite pulls.
pub open spec fn pair_step(g: int, bs: Seq<Body>, st: ScanState, i: int, j: int) -> ScanState {
    if bs[i].touches(&bs[j]) {
        (st.0, joined(st.1, i, j))
    } else {
        let px = pull_x(g, bs[i], bs[j]);
        let py = pull_y(g, bs[i], bs[j]);
        let a = st.0[i];
        let b = st.0[j];
        (
            st.0.update(i, Body { fx: (a.fx + px) as i128, fy: (a.fy + py) as i128, ..a }).update(
                j,
                Body { fx: (b.fx - px) as i128, fy: (b.fy - py) as i128, ..b },
            ),
            st.1,
        )
    }
}

/// The pairs `(i, i+1) .. (i, j-1)` applied in order to `st`.
pub open spec fn scan_row(g: int, bs: Seq<Body>, st: ScanState, i: int, j: int) -> ScanState
    decreases j - i,
{
    if j <= i + 1 {
        st
    } else {
        pair_step(g, bs, scan_row(g, bs, st, i, j - 1), i, j - 1)
    }
}

/// All pairs whose first index is below `i`, in order.
pub open spec fn scan_rows(g: int, bs: Seq<Body>, i: int) -> ScanState
    decreases i,
{
    if i <= 0 {
        (bs, identity_labels(bs.len()))
    } else {
        scan_row(g, bs, scan_rows(g, bs, i - 1), i - 1, bs.len() as int)
    }
}

/// The result of the all-pairs pass over `bs`.
pub open spec fn scanned(g: int, bs: Seq<Body>) -> ScanState {
    scan_rows(g, bs, bs.len() as int)
}

/// Sum of the pulls along x on body `k` from the bodies before index `m`
/// other than `k` that do not touch it.
pub open spec fn net_x(g: int, bs: Seq<Body>, k: int, m: int) -> int
    decreases m,
{
    if m <= 0 {
        0
    } else {
        net_x(g, bs, k, m - 1) + if m - 1 != k && !bs[k].touches(&bs[m - 1]) {
            pull_x(g, bs[k], bs[m - 1])
        } else {
            0
        }
    }
}

/// Sum of the pulls along y, as `net_x`.
pub open spec fn net_y(g: int, bs: Seq<Body>, k: int, m: int) -> int
    decreases m,
{
    if m <= 0 {
        0
    } else {
        net_y(g, bs, k, m - 1) + if m - 1 != k && !bs[k].touches(&bs[m - 1]) {
            pull_y(g, bs[k], bs[m - 1])
        } else {
            0
        }
    }
}

pub open spec fn scan_ok(g: int, bs: Seq<Body>) -> bool {
    &&& 0 <= g <= G_MAX
    &&& all_ok(bs)
    &&& bs.len() <= MAX_BODIES
    &&& forall|k: int| 0 <= k < bs.len() ==> (#[trigger] bs[k]).fx == 0 && bs[k].fy == 0
}

proof fn lemma_net_bound(g: int, bs: Seq<Body>, k: int, m: int)
    requires
        scan_ok(g, bs),
        0 <= k < bs.len(),
        0 <= m <= bs.len(),
    ensures
        abs(net_x(g, bs, k, m)) <= m * PAIR_FORCE_MAX,
        abs(net_y(g, bs, k, m)) <= m * PAIR_FORCE_MAX,
    decreases m,
{
    if m > 0 {
        lemma_net_bound(g, bs, k, m - 1);
        assert(bs[k].ok() && bs[m - 1].ok());
        lemma_pull_bound(g, bs[k], bs[m - 1]);
        assert((m - 1) * PAIR_FORCE_MAX + PAIR_FORCE_MAX == m * PAIR_FORCE_MAX) by (nonlinear_arith);
    }
}

/// Forces expected after the pairs of rows before `i`, and of row `i` up to
/// column `j`.
pub open spec fn expected_x(g: int, bs: Seq<Body>, k: int, i: int, j: int) -> int {
    if k < i {
        net_x(g, bs, k, bs.len() as int)
    } else if k == i {
        net_x(g, bs, k, j)
    } else if k < j {
        net_x(g, bs, k, i + 1)
    } else {
        net_x(g, bs, k, i)
    }
}

pub open spec fn expected_y(g: int, bs: Seq<Body>, k: int, i: int, j: int) -> int {
    if k < i {
        net_y(g, bs, k, bs.len() as int)
    } else if k == i {
        net_y(g, bs, k, j)
    } else if k < j {
        net_y(g, bs, k, i + 1)
    } else {
        net_y(g, bs, k, i)
    }
}

pub open spec fn forces_are(g: int, bs: Seq<Body>, st: ScanState, i: int, j: int) -> bool {
    &&& st.0.len() == bs.len()
    &&& forall|k: int|
        0 <= k < bs.len() ==> (#[trigger] st.0[k]).fx == expected_x(g, bs, k, i, j) && st.0[k].fy
            == expected_y(g, bs, k, i, j)
}

proof fn lemma_scan_row_forces(g: int, bs: Seq<Body>, st: ScanState, i: int, j: int)
    requires
        scan_ok(g, bs),
        0 <= i < bs.len(),
        i + 1 <= j <= bs.len(),
        forces_are(g, bs, st, i, i + 1),
    ensures
        forces_are(g, bs, scan_row(g, bs, st, i, j), i, j),
    decreases j,
{
    if j > i + 1 {
        lemma_scan_row_forces(g, bs, st, i, j - 1);
        let prev = scan_row(g, bs, st, i, j - 1);
        let q = j - 1;
        let next = pair_step(g, bs, prev, i, q);
        lemma_touches_symmetric(bs[i], bs[q]);
        lemma_pull_opposite(g, bs[i], bs[q]);
        lemma_net_bound(g, bs, i, j);
        lemma_net_bound(g, bs, q, i + 1);
        assert(j * PAIR_FORCE_MAX <= 1024 * PAIR_FORCE_MAX) by (nonlinear_arith)
            requires
                j <= 1024;
        assert((i + 1) * PAIR_FORCE_MAX <= 1024 * PAIR_FORCE_MAX) by (nonlinear_arith)
            requires
                i + 1 <= 1024;
        assert forall|k: int| 0 <= k < bs.len() implies (#[trigger] next.0[k]).fx == expected_x(
            g,
            bs,
            k,
            i,
            j,
        ) && next.0[k].fy == expected_y(g, bs, k, i, j) by {
            if k != i && k != q {
                assert(next.0[k] == prev.0[k]);
            }
        }
    }
}

proof fn lemma_scan_rows_forces(g: int, bs: Seq<Body>, i: int)
    requires
        scan_ok(g, bs),
        0 <= i <= bs.len(),
    ensures
        forces_are(g, bs, scan_rows(g, bs, i), i, i),
    decreases i,
{
    if i > 0 {
        lemma_scan_rows_forces(g, bs, i - 1);
        let st = scan_rows(g, bs, i - 1);
        assert forall|k: int| 0 <= k < bs.len() implies (#[trigger] st.0[k]).fx == expected_x(
            g,
            bs,
            k,
            i - 1,
            i,
        ) && st.0[k].fy == expected_y(g, bs, k, i - 1, i) by {
            if k == i - 1 {
                assert(net_x(g, bs, k, i) == net_x(g, bs, k, i - 1));
                assert(net_y(g, bs, k, i) == net_y(g, bs, k, i - 1));
            }
        }
        lemma_scan_row_forces(g, bs, st, i - 1, bs.len() as int);
    } else {
        assert forall|k: int| 0 <= k < bs.len() implies (#[trigger] scan_rows(g, bs, i).0[k]).fx
            == expected_x(g, bs, k, i, i) && scan_rows(g, bs, i).0[k].fy == expected_y(g, bs, k, i, i) by {
            assert(bs[k].fx == 0 && bs[k].fy == 0);
        }
    }
}

/// The force that the all-pairs pass leaves on each body is the sum of the
/// pulls of every other body that does not touch it: a sum over the other
/// bodies, with nothing left of the order in which the pairs were visited.
pub proof fn lemma_scanned_force_is_sum_of_pulls(g: int, bs: Seq<Body>)
    requires
        scan_ok(g, bs),
    ensures
        scanned(g, bs).0.len() == bs.len(),
        forall|k: int|
            0 <= k < bs.len() ==> (#[trigger] scanned(g, bs).0[k]).fx == net_x(g, bs, k, bs.len() as int)
                && scanned(g, bs).0[k].fy == net_y(g, bs, k, bs.len() as int),
{
    lemma_scan_rows_forces(g, bs, bs.len() as int);
}

/// Pull of `b` on `a` along x, or nothing when the two touch.
pub open spec fn pull_apart_x(g: int, a: Body, b: Body) -> int {
    if !a.touches(&b) {
        pull_x(g, a, b)
    } else {
        0
    }
}

pub open spec fn pull_apart_y(g: int, a: Body, b: Body) -> int {
    if !a.touches(&b) {
        pull_y(g, a, b)
    } else {
        0
    }
}

/// Sum of the pulls on `a` of the bodies of `s` that do not touch it.
pub open spec fn sum_pulls(g: int, a: Body, s: Seq<Body>) -> (int, int)
    decreases s.len(),
{
    if s.len() == 0 {
        (0, 0)
    } else {
        let rest = sum_pulls(g, a, s.drop_last());
        (rest.0 + pull_apart_x(g, a, s.last()), rest.1 + pull_apart_y(g, a, s.last()))
    }
}

proof fn lemma_net_is_sum(g: int, bs: Seq<Body>, k: int, m: int)
    requires
        0 <= k < bs.len(),
        0 <= m <= bs.len(),
    ensures
        sum_pulls(g, bs[k], bs.take(m)) == (net_x(g, bs, k, m), net_y(g, bs, k, m)),
    decreases m,
{
    if m > 0 {
        lemma_net_is_sum(g, bs, k, m - 1);
        assert(bs.take(m).drop_last() =~= bs.take(m - 1));
        assert(bs.take(m).last() == bs[m - 1]);
        if m - 1 == k {
            let a = bs[k];
            assert(a.touches(&a)) by (nonlinear_arith)
                requires
                    a.radius >= 0;
        }
    }
}

proof fn lemma_sum_remove(g: int, a: Body, s: Seq<Body>, p: int)
    requires
        0 <= p < s.len(),
    ensures
        sum_pulls(g, a, s).0 == sum_pulls(g, a, s.remove(p)).0 + pull_apart_x(g, a, s[p]),
        sum_pulls(g, a, s).1 == sum_pulls(g, a, s.remove(p)).1 + pull_apart_y(g, a, s[p]),
    decreases s.len(),
{
    if p == s.len() - 1 {
        assert(s.remove(p) =~= s.drop_last());
    } else {
        lemma_sum_remove(g, a, s.drop_last(), p);
        assert(s.drop_last().remove(p) =~= s.remove(p).drop_last());
        assert(s.remove(p).last() == s.last());
    }
}

proof fn lemma_sum_reordered(g: int, a: Body, s: Seq<Body>, t: Seq<Body>)
    requires
        s.to_multiset() == t.to_multiset(),
    ensures
        sum_pulls(g, a, s) == sum_pulls(g, a, t),
    decreases s.len(),
{
    broadcast use vstd::seq_lib::group_to_multiset_ensures;

    if s.len() == 0 {
        vstd::seq_lib::to_multiset_len(s);
        vstd::seq_lib::to_multiset_len(t);
    } else {
        let x = s.last();
        assert(s.to_multiset().count(x) > 0);
        assert(t.contains(x));
        let p = choose|p: int| 0 <= p < t.len() && t[p] == x;
        assert(s.drop_last() =~= s.remove(s.len() - 1));
        assert(s.drop_last().to_multiset() == s.to_multiset().remove(x));
        assert(t.remove(p).to_multiset() == t.to_multiset().remove(x));
        lemma_sum_reordered(g, a, s.drop_last(), t.remove(p));
        lemma_sum_remove(g, a, t, p);
    }
}

/// The forces of a step do not depend on the order of the bodies: in any
/// reordering of the same bodies, each body receives the same force.
pub proof fn lemma_scan_force_order_independent(g: int, bs: Seq<Body>, bs2: Seq<Body>, k: int, k2: int)
    requires
        scan_ok(g, bs),
        scan_ok(g, bs2),
        bs.to_multiset() == bs2.to_multiset(),
        0 <= k < bs.len(),
        0 <= k2 < bs2.len(),
        bs2[k2] == bs[k],
    ensures
        scanned(g, bs2).0[k2].fx == scanned(g, bs).0[k].fx,
        scanned(g, bs2).0[k2].fy == scanned(g, bs).0[k].fy,
{
    lemma_scanned_force_is_sum_of_pulls(g, bs);
    lemma_scanned_force_is_sum_of_pulls(g, bs2);
    lemma_net_is_sum(g, bs, k, bs.len() as int);
    lemma_net_is_sum(g, bs2, k2, bs2.len() as int);
    assert(bs.take(bs.len() as int) =~= bs);
    assert(bs2.take(bs2.len() as int) =~= bs2);
    lemma_sum_reordered(g, bs[k], bs, bs2);
}

/// Tests every unordered pair of `bodies` once: a touching pair joins the
/// collision groups, any other pair exchanges gravity. Returns the bodies with
/// their accumulated forces and the group label of each.
pub fn accumulate(g: u64, bodies: &Vec<Body>) -> (r: (Vec<Body>, Vec<usize>))
    requires
        g <= G_MAX,
        all_ok(bodies@),
        bodies.len() <= MAX_BODIES,
        forall|k: int| 0 <= k < bodies.len() ==> (#[trigger] bodies@[k]).fx == 0 && bodies@[k].fy == 0,
    ensures
        (r.0@, r.1@) == scanned(g as int, bodies@),
        r.0.len() == bodies.len(),
        r.1.len() == bodies.len(),
        all_ok(r.0@),
        forall|k: int| 0 <= k < bodies.len() ==> same_but_force(#[trigger] r.0@[k], bodies@[k]),
{
    let n = bodies.len();
    let ghost bs = bodies@;
    let mut cur: Vec<Body> = bodies.clone();
    let mut labels: Vec<usize> = Vec::new();
    let mut k: usize = 0;
    while k < n
        invariant
            k <= n,
            labels@ == identity_labels(k as nat),
        decreases n - k,
    {
        labels.push(k);
        k = k + 1;
        assert(labels@ =~= identity_labels(k as nat));
    }
    assert(cur@ == bs);
    let mut i: usize = 0;
    while i < n
        invariant
            n == bs.len(),
            bs == bodies@,
            g <= G_MAX,
            all_ok(bs),
            n <= MAX_BODIES,
            i <= n,
            (cur@, labels@) == scan_rows(g as int, bs, i as int),
            cur.len() == n,
            labels.len() == n,
            forall|m: int| 0 <= m < n ==> same_but_force(#[trigger] cur@[m], bs[m]),
            forall|m: int| 0 <= m < n ==> abs((#[trigger] cur@[m]).fx as int) <= i * n * PAIR_FORCE_MAX
                && abs(cur@[m].fy as int) <= i * n * PAIR_FORCE_MAX,
        decreases n - i,
    {
        let ghost row_start: ScanState = (cur@, labels@);
        let mut j: usize = i + 1;
        while j < n
            invariant
                n == bs.len(),
                bs == bodies@,
                g <= G_MAX,
                all_ok(bs),
                n <= MAX_BODIES,
                i < n,
                i + 1 <= j <= n,
                row_start == scan_rows(g as int, bs, i as int),
                (cur@, labels@) == scan_row(g as int, bs, row_start, i as int, j as int),
                cur.len() == n,
                labels.len() == n,
                forall|m: int| 0 <= m < n ==> same_but_force(#[trigger] cur@[m], bs[m]),
                forall|m: int| 0 <= m < n ==> abs((#[trigger] cur@[m]).fx as int) <= (i * n + j)
                    * PAIR_FORCE_MAX && abs(cur@[m].fy as int) <= (i * n + j) * PAIR_FORCE_MAX,
            decreases n - j,
        {
            proof {
                assert((i * n + j) * PAIR_FORCE_MAX <= ACC_MAX - PAIR_FORCE_MAX) by (nonlinear_arith)
                    requires
                        i < n, j < n, n <= 1024;
                assert((i * n + j + 1) * PAIR_FORCE_MAX == (i * n + j) * PAIR_FORCE_MAX
                    + PAIR_FORCE_MAX) by (nonlinear_arith);
                assert(bs[i as int].ok() && bs[j as int].ok());
            }
            let bi = bodies[i];
            let bj = bodies[j];
            if bi.collides_with(&bj) {
                put_in_collision_group(&mut labels, i, j);
            } else {
                let mut a = cur[i];
                let mut b = cur[j];
                assert(same_but_force(a, bs[i as int]) && same_but_force(b, bs[j as int]));
                proof {
                    lemma_pull_same(g as int, bs[i as int], bs[j as int], a, b);
                }
                newtonian_grav(g, &mut a, &mut b);
                cur.set(i, a);
                cur.set(j, b);
            }
            j = j + 1;
        }
        proof {
            assert((i * n + n) == (i + 1) * n) by (nonlinear_arith);
        }
        i = i + 1;
    }
    proof {
        assert forall|m: int| 0 <= m < n implies (#[trigger] cur@[m]).ok() by {
            assert(same_but_force(cur@[m], bs[m]));
            assert(bs[m].ok());
            assert(n * n * PAIR_FORCE_MAX <= ACC_MAX) by (nonlinear_arith)
                requires
                    n <= 1024;
        }
    }
    (cur, labels)
}

} // verus!
