//! Mesh clean-up on the index buffer: dropping degenerate triangles and
//! renumbering the vertices that remain in use.
use vstd::prelude::*;
use crate::numbering::{first_uses, position_of};
use crate::graph::{count_true, lemma_count_bound, lemma_count_update};
use super::repair::index_degenerate;

verus! {

proof fn lemma_none_used(n: nat)
    ensures
        count_true(Seq::new(n, |u: int| false)) == 0,
    decreases n,
{
    if n > 0 {
        assert(Seq::new(n, |u: int| false).drop_last() =~= Seq::new((n - 1) as nat, |u: int| false));
        lemma_none_used((n - 1) as nat);
    }
}

/// Renumbers the vertices of `indices` in the order of their first use:
/// returns the used vertices (old numbers, in that order) and the indices
/// in the new numbering.
pub fn compact_indices(nv: usize, indices: &[u32]) -> (r: (Vec<u32>, Vec<u32>))
    requires
        nv <= u32::MAX,
        forall|k: int| 0 <= k < indices@.len() ==> (#[trigger] indices@[k]) < nv,
    ensures
        (r.0@, r.1@) == first_uses(indices@),
{
    let mut old_to_new: Vec<u32> = Vec::new();
    let mut v: usize = 0;
    while v < nv
        invariant
            v <= nv,
            old_to_new@.len() == v,
            forall|u: int| 0 <= u < v ==> old_to_new@[u] == u32::MAX,
        decreases nv - v,
    {
        old_to_new.push(u32::MAX);
        v += 1;
    }
    let mut order: Vec<u32> = Vec::new();
    let mut out: Vec<u32> = Vec::new();
    let ghost mut used: Seq<bool> = Seq::new(nv as nat, |u: int| false);
    proof {
        assert(count_true(used) == 0) by {
            lemma_none_used(nv as nat);
        }
    }
    let mut i: usize = 0;
    while i < indices.len()
        invariant
            i <= indices@.len(),
            nv <= u32::MAX,
            used.len() == nv,
            forall|u: int| 0 <= u < nv ==> (#[trigger] used[u]) == (old_to_new@[u] != u32::MAX),
            count_true(used) == order@.len(),
            forall|k: int| 0 <= k < indices@.len() ==> (#[trigger] indices@[k]) < nv,
            old_to_new@.len() == nv,
            (order@, out@) == first_uses(indices@.take(i as int)),
            forall|j: int, k: int| 0 <= j < k < order@.len() ==> order@[j] != order@[k],
            order@.len() <= nv,
            forall|j: int| 0 <= j < order@.len() ==> (#[trigger] order@[j]) < nv && old_to_new@[order@[j] as int] == j,
            forall|u: int| 0 <= u < nv && old_to_new@[u] != u32::MAX ==> #[trigger] old_to_new@[u] < order@.len()
                && order@[old_to_new@[u] as int] == u,
        decreases indices@.len() - i,
    {
        let x = indices[i];
        let ghost p = order@;
        let ghost take = indices@.take(i as int + 1);
        assert(take.drop_last() =~= indices@.take(i as int));
        assert(take.last() == x);
        let m = old_to_new[x as usize];
        if m != u32::MAX {
            proof {
                assert(p.contains(x));
                let q = position_of(p, x);
                assert(p[q] == x);
                assert(old_to_new@[p[q] as int] == q);
            }
            out.push(m);
        } else {
            proof {
                assert forall|j: int| 0 <= j < p.len() implies p[j] != x by {
                    if p[j] == x {
                        assert(old_to_new@[p[j] as int] == j);
                    }
                }
            }
            proof {
                lemma_count_bound(used);
                lemma_count_update(used, x as int);
                used = used.update(x as int, true);
                lemma_count_bound(used);
            }
            let n = order.len() as u32;
            old_to_new.set(x as usize, n);
            order.push(x);
            out.push(n);
        }
        i += 1;
    }
    assert(indices@.take(indices@.len() as int) =~= indices@);
    (order, out)
}

/// The triangles of `ind` with three different vertices that `flat` does
/// not mark as without area.
pub open spec fn proper_triangles(ind: Seq<u32>, flat: Seq<bool>, k: int) -> Seq<u32>
    decreases k,
{
    if k <= 0 {
        Seq::empty()
    } else if index_degenerate(ind, k - 1) || flat[k - 1] {
        proper_triangles(ind, flat, k - 1)
    } else {
        proper_triangles(ind, flat, k - 1) + seq![ind[3 * (k - 1)], ind[3 * (k - 1) + 1], ind[3 * (k - 1) + 2]]
    }
}

/// Removes the triangles with a repeated vertex or (by `flat`) without
/// area, and the vertices no remaining triangle uses. Returns the vertices
/// kept (old numbers, in the order of first use) and the new indices;
/// `None` when the mesh has no triangle or no vertex, and stays as it is.
pub fn remove_degenerate_faces(indices: &[u32], nv: usize, flat: &[bool]) -> (r: Option<(Vec<u32>, Vec<u32>)>)
    requires
        indices@.len() % 3 == 0,
        nv <= u32::MAX,
        flat@.len() == indices@.len() / 3,
        forall|k: int| 0 <= k < indices@.len() ==> (#[trigger] indices@[k]) < nv,
    ensures
        match r {
            None => indices@.len() == 0 || nv == 0,
            Some(p) => indices@.len() > 0 && nv > 0 && (p.0@, p.1@) == first_uses(
                proper_triangles(indices@, flat@, (indices@.len() / 3) as int),
            ),
        },
{
    let nt = indices.len() / 3;
    if nt == 0 || nv == 0 {
        return None;
    }
    let len = indices.len();
    let mut kept: Vec<u32> = Vec::new();
    let mut t: usize = 0;
    while t < nt
        invariant
            len == indices@.len(),
            t <= nt,
            nt == indices@.len() / 3,
            flat@.len() == nt,
            indices@.len() % 3 == 0,
            kept@ == proper_triangles(indices@, flat@, t as int),
            forall|k: int| 0 <= k < kept@.len() ==> (#[trigger] kept@[k]) < nv,
            forall|k: int| 0 <= k < indices@.len() ==> (#[trigger] indices@[k]) < nv,
        decreases nt - t,
    {
        assert(3 * t + 2 < indices@.len()) by (nonlinear_arith)
            requires
                t < nt,
                nt == indices@.len() / 3,
        ;
        let (i0, i1, i2) = (indices[3 * t], indices[3 * t + 1], indices[3 * t + 2]);
        if !(i0 == i1 || i1 == i2 || i2 == i0 || flat[t]) {
            kept.push(i0);
            kept.push(i1);
            kept.push(i2);
        }
        t += 1;
        assert(kept@ =~= proper_triangles(indices@, flat@, t as int));
    }
    Some(compact_indices(nv, &kept))
}

} // verus!
