//! Collision groups. Every body carries a group label; when two bodies
//! collide, the whole group of the second joins the group of the first. A body
//! therefore always lies in exactly one group, and the groups are the
//! connected components of the collision graph seen so far.
use vstd::prelude::*;

verus! {

/// Labels after bodies `i` and `j` are found to collide: every body that
/// shared `j`'s label takes `i`'s.
pub open spec fn joined(labels: Seq<usize>, i: int, j: int) -> Seq<usize> {
    Seq::new(
        labels.len(),
        |k: int|
            if labels[k] == labels[j] {
                labels[i]
            } else {
                labels[k]
            },
    )
}

/// Records that the bodies at indices `i` and `j` collide, joining their
/// groups into one.
pub fn put_in_collision_group(labels: &mut Vec<usize>, i: usize, j: usize)
    requires
        i < old(labels).len(),
        j < old(labels).len(),
    ensures
        final(labels)@ == joined(old(labels)@, i as int, j as int),
{
    let li = labels[i];
    let lj = labels[j];
    let n = labels.len();
    let mut k: usize = 0;
    while k < n
        invariant
            n == labels.len(),
            n == old(labels).len(),
            li == old(labels)@[i as int],
            lj == old(labels)@[j as int],
            k <= n,
            forall|m: int| 0 <= m < k ==> labels@[m] == joined(old(labels)@, i as int, j as int)[m],
            forall|m: int| k <= m < n ==> labels@[m] == old(labels)@[m],
        decreases n - k,
    {
        if labels[k] == lj {
            labels.set(k, li);
        }
        k = k + 1;
    }
    assert(labels@ =~= joined(old(labels)@, i as int, j as int));
}

/// After a collision of `i` and `j`, the two are in one group.
pub proof fn lemma_joined_connects(labels: Seq<usize>, i: int, j: int)
    requires
        0 <= i < labels.len(),
        0 <= j < labels.len(),
    ensures
        joined(labels, i, j)[i] == joined(labels, i, j)[j],
{
}

/// Joining only merges groups: bodies that shared a group still do, and two
/// bodies share a group afterwards only if they did before or one was in
/// `i`'s group and the other in `j`'s.
pub proof fn lemma_joined_merges_only(labels: Seq<usize>, i: int, j: int, a: int, b: int)
    requires
        0 <= i < labels.len(),
        0 <= j < labels.len(),
        0 <= a < labels.len(),
        0 <= b < labels.len(),
    ensures
        labels[a] == labels[b] ==> joined(labels, i, j)[a] == joined(labels, i, j)[b],
        joined(labels, i, j)[a] == joined(labels, i, j)[b] ==> {
            ||| labels[a] == labels[b]
            ||| (labels[a] == labels[i] || labels[a] == labels[j]) && (labels[b] == labels[i]
                || labels[b] == labels[j])
        },
{
}

/// Collisions chain: when `a` collides with `b` and then `b` with `c`, all
/// three end in one group, whether or not `a` and `c` touch.
pub proof fn lemma_chain_forms_one_group(labels: Seq<usize>, a: int, b: int, c: int)
    requires
        0 <= a < labels.len(),
        0 <= b < labels.len(),
        0 <= c < labels.len(),
    ensures
        ({
            let after = joined(joined(labels, a, b), b, c);
            after[a] == after[b] && after[b] == after[c]
        }),
{
}

} // verus!
