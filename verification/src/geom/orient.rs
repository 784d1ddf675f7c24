//! Consistent winding: triangles are flipped so that neighbours across a
//! shared edge walk it in opposite directions, shell by shell, breadth
//! first; and whole shells are turned over afterwards.
use vstd::prelude::*;
use std::collections::HashMap;
use crate::graph::{count_true, lemma_count_bound, lemma_count_update};
use super::boundary::tri_edge;

verus! {

broadcast use vstd::std_specs::hash::group_hash_axioms;

/// Directed side `x` of the triangles (side `x % 3` of triangle `x / 3`).
pub open spec fn dir_side(ind: Seq<u32>, x: int) -> (u32, u32) {
    tri_edge(ind, x / 3, x % 3)
}

/// The triangle of the last of the first `k` sides that runs from `u` to
/// `v`.
pub open spec fn owner_upto(ind: Seq<u32>, u: u32, v: u32, k: int) -> Option<u32>
    decreases k,
{
    if k <= 0 {
        None
    } else if dir_side(ind, k - 1) == (u, v) {
        Some(((k - 1) / 3) as u32)
    } else {
        owner_upto(ind, u, v, k - 1)
    }
}

/// The last triangle with a side from `u` to `v`, in the original winding.
pub open spec fn owner(ind: Seq<u32>, u: u32, v: u32) -> Option<u32> {
    owner_upto(ind, u, v, 3 * (ind.len() / 3) as int)
}

/// Triangle `t` with its winding reversed (its last two corners swapped).
pub open spec fn flipped(ind: Seq<u32>, t: int) -> Seq<u32> {
    ind.update(3 * t + 1, ind[3 * t + 2]).update(3 * t + 2, ind[3 * t + 1])
}

/// The state of the walk: the current indices, the triangles reached, and
/// those found in this shell in order.
pub type Walk = (Seq<u32>, Seq<bool>, Seq<u32>);

/// Crossing the side from `u` to `v`: a triangle that walks it the other
/// way is reached as it is; failing that, one that walks it the same way is
/// reached and flipped. (Sides are looked up in the original winding `ind0`.)
pub open spec fn cross_side(ind0: Seq<u32>, st: Walk, u: u32, v: u32) -> Walk {
    let (ind, seen, found) = st;
    match owner(ind0, v, u) {
        Some(nb) => if seen[nb as int] {
            st
        } else {
            (ind, seen.update(nb as int, true), found.push(nb))
        },
        None => match owner(ind0, u, v) {
            Some(nb) => if seen[nb as int] {
                st
            } else {
                (flipped(ind, nb as int), seen.update(nb as int, true), found.push(nb))
            },
            None => st,
        },
    }
}

/// Triangle `t` expanded: its three sides, in its current winding.
pub open spec fn visit_tri(ind0: Seq<u32>, st: Walk, t: int) -> Walk {
    let ind = st.0;
    let (a, b, c) = (ind[3 * t], ind[3 * t + 1], ind[3 * t + 2]);
    cross_side(ind0, cross_side(ind0, cross_side(ind0, st, a, b), b, c), c, a)
}

/// The walk from position `head` of the found triangles on.
pub open spec fn orient_bfs(ind0: Seq<u32>, st: Walk, head: int, fuel: nat) -> Walk
    decreases fuel,
{
    if fuel == 0 || head < 0 || head >= st.2.len() {
        st
    } else {
        orient_bfs(ind0, visit_tri(ind0, st, st.2[head] as int), head + 1, (fuel - 1) as nat)
    }
}

/// The shell of triangle `t`, oriented like `t`.
pub open spec fn orient_from(ind0: Seq<u32>, ind: Seq<u32>, seen: Seq<bool>, t: int) -> Walk {
    orient_bfs(ind0, (ind, seen.update(t, true), seq![t as u32]), 0, (ind0.len() / 3 + 1) as nat)
}

/// The first `k` triangles walked: the indices, the triangles reached and
/// the shells found.
pub open spec fn orient_upto(ind0: Seq<u32>, k: int) -> (Seq<u32>, Seq<bool>, Seq<Seq<u32>>)
    decreases k,
{
    if k <= 0 {
        (ind0, Seq::new(ind0.len() / 3, |i: int| false), Seq::empty())
    } else {
        let (ind, seen, cs) = orient_upto(ind0, k - 1);
        if seen[k - 1] {
            (ind, seen, cs)
        } else {
            let w = orient_from(ind0, ind, seen, k - 1);
            (w.0, w.1, cs.push(w.2))
        }
    }
}

/// The key of a directed side.
pub open spec fn dir_key(u: u32, v: u32) -> u64 {
    (u as int * 0x1_0000_0000 + v as int) as u64
}

proof fn lemma_dir_key(u: u32, v: u32, a: u32, b: u32)
    ensures
        dir_key(u, v) == u as int * 0x1_0000_0000 + v as int,
        dir_key(u, v) == dir_key(a, b) ==> u == a && v == b,
{
    assert(u as int * 0x1_0000_0000 + v as int <= u64::MAX) by (nonlinear_arith)
        requires
            u <= u32::MAX,
            v <= u32::MAX,
    ;
    assert(a as int * 0x1_0000_0000 + b as int <= u64::MAX) by (nonlinear_arith)
        requires
            a <= u32::MAX,
            b <= u32::MAX,
    ;
    if dir_key(u, v) == dir_key(a, b) {
        assert(u == a && v == b) by (nonlinear_arith)
            requires
                u as int * 0x1_0000_0000 + v as int == a as int * 0x1_0000_0000 + b as int,
                v < 0x1_0000_0000,
                b < 0x1_0000_0000,
        ;
    }
}

fn dir_key_exec(u: u32, v: u32) -> (k: u64)
    ensures
        k == dir_key(u, v),
{
    proof {
        lemma_dir_key(u, v, u, v);
    }
    (u as u64) * 0x1_0000_0000 + v as u64
}

/// The map from each directed side to the last triangle that has it.
pub open spec fn side_map_ok(ind0: Seq<u32>, m: Map<u64, u32>, k: int) -> bool {
    forall|u: u32, v: u32|
        #![trigger owner_upto(ind0, u, v, k)]
        (m.contains_key(dir_key(u, v)) <==> owner_upto(ind0, u, v, k) is Some) && (m.contains_key(dir_key(u, v))
            ==> owner_upto(ind0, u, v, k) == Some(m[dir_key(u, v)]))
}

fn side_map(indices: &[u32]) -> (m: HashMap<u64, u32>)
    requires
        indices@.len() / 3 <= u32::MAX,
    ensures
        side_map_ok(indices@, m@, 3 * (indices@.len() / 3) as int),
{
    let ghost ind = indices@;
    let len = indices.len();
    let nt = len / 3;
    let mut m: HashMap<u64, u32> = HashMap::new();
    let mut t: usize = 0;
    while t < nt
        invariant
            ind == indices@,
            len == ind.len(),
            nt == len / 3,
            nt <= u32::MAX,
            t <= nt,
            side_map_ok(ind, m@, 3 * t),
        decreases nt - t,
    {
        assert(3 * t + 2 < len) by (nonlinear_arith)
            requires
                t < nt,
                nt == len / 3,
        ;
        let b = 3 * t;
        let (i0, i1, i2) = (indices[b], indices[b + 1], indices[b + 2]);
        let tt = t as u32;
        let mut e: usize = 0;
        while e < 3
            invariant
                ind == indices@,
                len == ind.len(),
                t < nt,
                nt <= u32::MAX,
                3 * t + 2 < ind.len(),
                tt == t,
                i0 == ind[3 * t] && i1 == ind[3 * t + 1] && i2 == ind[3 * t + 2],
                e <= 3,
                side_map_ok(ind, m@, 3 * t + e),
            decreases 3 - e,
        {
            let (u, v) = if e == 0 {
                (i0, i1)
            } else if e == 1 {
                (i1, i2)
            } else {
                (i2, i0)
            };
            let x = 3 * t + e;
            proof {
                assert(x / 3 == t && x % 3 == e);
                assert(dir_side(ind, x as int) == (u, v));
            }
            let key = dir_key_exec(u, v);
            let ghost before = m@;
            m.insert(key, tt);
            proof {
                assert forall|a: u32, b: u32| #![trigger owner_upto(ind, a, b, x + 1)]
                    (m@.contains_key(dir_key(a, b)) <==> owner_upto(ind, a, b, x + 1) is Some) && (m@.contains_key(
                        dir_key(a, b),
                    ) ==> owner_upto(ind, a, b, x + 1) == Some(m@[dir_key(a, b)])) by {
                    lemma_dir_key(a, b, u, v);
                    assert(owner_upto(ind, a, b, x as int) == owner_upto(ind, a, b, x as int));
                    if (a, b) == (u, v) {
                        assert(owner_upto(ind, a, b, x + 1) == Some(tt));
                    } else {
                        assert(owner_upto(ind, a, b, x + 1) == owner_upto(ind, a, b, x as int));
                    }
                }
            }
            e += 1;
        }
        t += 1;
    }
    m
}

proof fn lemma_owner_bound(ind0: Seq<u32>, u: u32, v: u32, k: int)
    requires
        0 <= k <= 3 * (ind0.len() / 3),
    ensures
        owner_upto(ind0, u, v, k) matches Some(t) ==> t < ind0.len() / 3,
    decreases k,
{
    if k > 0 {
        lemma_owner_bound(ind0, u, v, k - 1);
        assert((k - 1) / 3 < ind0.len() / 3) by (nonlinear_arith)
            requires
                0 <= k - 1 < 3 * (ind0.len() / 3),
        ;
    }
}

/// Reaches triangle `nb` (flipping it when `flip`).
fn reach(ind: &mut Vec<u32>, seen: &mut Vec<bool>, found: &mut Vec<u32>, nb: u32, flip: bool)
    requires
        (nb as int) < old(seen)@.len(),
        3 * nb + 2 < old(ind)@.len(),
        !old(seen)@[nb as int],
    ensures
        final(ind)@ == if flip {
            flipped(old(ind)@, nb as int)
        } else {
            old(ind)@
        },
        final(seen)@ == old(seen)@.update(nb as int, true),
        final(found)@ == old(found)@.push(nb),
        count_true(final(seen)@) == count_true(old(seen)@) + 1,
{
    proof {
        lemma_count_update(seen@, nb as int);
    }
    seen.set(nb as usize, true);
    found.push(nb);
    if flip {
        let l = ind.len();
        let p = 3 * (nb as usize);
        let a = ind[p + 1];
        let b = ind[p + 2];
        ind.set(p + 1, b);
        ind.set(p + 2, a);
    }
}

/// The walk invariants that every step keeps.
pub open spec fn walk_ok(ind0: Seq<u32>, st: Walk) -> bool {
    &&& st.0.len() == ind0.len()
    &&& st.1.len() == ind0.len() / 3
    &&& forall|k: int| 0 <= k < st.2.len() ==> (#[trigger] st.2[k]) < ind0.len() / 3
}

/// Crosses the side from `u` to `v`.
fn cross_side_exec(
    m: &HashMap<u64, u32>,
    ind: &mut Vec<u32>,
    seen: &mut Vec<bool>,
    found: &mut Vec<u32>,
    u: u32,
    v: u32,
    Ghost(ind0): Ghost<Seq<u32>>,
)
    requires
        ind0.len() / 3 <= u32::MAX,
        side_map_ok(ind0, m@, 3 * (ind0.len() / 3) as int),
        walk_ok(ind0, (old(ind)@, old(seen)@, old(found)@)),
    ensures
        (final(ind)@, final(seen)@, final(found)@) == cross_side(ind0, (old(ind)@, old(seen)@, old(found)@), u, v),
        walk_ok(ind0, (final(ind)@, final(seen)@, final(found)@)),
        count_true(final(seen)@) - count_true(old(seen)@) == final(found)@.len() - old(found)@.len(),
        final(found)@.len() >= old(found)@.len(),
        final(found)@.take(old(found)@.len() as int) == old(found)@,
{
    let ghost nt = ind0.len() / 3;
    let ghost k3 = 3 * (ind0.len() / 3) as int;
    proof {
        lemma_owner_bound(ind0, v, u, k3);
        lemma_owner_bound(ind0, u, v, k3);
        assert(owner_upto(ind0, v, u, k3) == owner(ind0, v, u));
        assert(owner_upto(ind0, u, v, k3) == owner(ind0, u, v));
    }
    let back = dir_key_exec(v, u);
    match m.get(&back) {
        Some(nb) => {
            let nb = *nb;
            assert(owner(ind0, v, u) == Some(nb));
            assert(3 * nb + 2 < ind0.len()) by (nonlinear_arith)
                requires
                    nb < ind0.len() / 3,
            ;
            if !seen[nb as usize] {
                reach(ind, seen, found, nb, false);
            }
        },
        None => {
            assert(owner(ind0, v, u) is None);
            let same = dir_key_exec(u, v);
            match m.get(&same) {
                Some(nb) => {
                    let nb = *nb;
                    assert(owner(ind0, u, v) == Some(nb));
                    assert(3 * nb + 2 < ind0.len()) by (nonlinear_arith)
                        requires
                            nb < ind0.len() / 3,
                    ;
                    if !seen[nb as usize] {
                        reach(ind, seen, found, nb, true);
                    }
                },
                None => {
                    assert(owner(ind0, u, v) is None);
                },
            }
        },
    }
    assert(found@.take(old(found)@.len() as int) =~= old(found)@);
}

/// Expands triangle `t`: its three sides in its current winding.
fn visit_tri_exec(
    m: &HashMap<u64, u32>,
    ind: &mut Vec<u32>,
    seen: &mut Vec<bool>,
    found: &mut Vec<u32>,
    t: usize,
    Ghost(ind0): Ghost<Seq<u32>>,
)
    requires
        ind0.len() / 3 <= u32::MAX,
        t < ind0.len() / 3,
        side_map_ok(ind0, m@, 3 * (ind0.len() / 3) as int),
        walk_ok(ind0, (old(ind)@, old(seen)@, old(found)@)),
    ensures
        (final(ind)@, final(seen)@, final(found)@) == visit_tri(ind0, (old(ind)@, old(seen)@, old(found)@), t as int),
        walk_ok(ind0, (final(ind)@, final(seen)@, final(found)@)),
        count_true(final(seen)@) - count_true(old(seen)@) == final(found)@.len() - old(found)@.len(),
        final(found)@.len() >= old(found)@.len(),
        final(found)@.take(old(found)@.len() as int) == old(found)@,
{
    assert(3 * t + 2 < ind0.len()) by (nonlinear_arith)
        requires
            t < ind0.len() / 3,
    ;
    let l = ind.len();
    let p = 3 * t;
    let (a, b, c) = (ind[p], ind[p + 1], ind[p + 2]);
    let ghost f0 = found@;
    let ghost s0 = seen@;
    cross_side_exec(m, ind, seen, found, a, b, Ghost(ind0));
    let ghost f1 = found@;
    let ghost s1 = seen@;
    cross_side_exec(m, ind, seen, found, b, c, Ghost(ind0));
    let ghost f2 = found@;
    let ghost s2 = seen@;
    cross_side_exec(m, ind, seen, found, c, a, Ghost(ind0));
    proof {
        assert(found@.take(f0.len() as int) =~= f0) by {
            assert(found@.take(f1.len() as int).take(f0.len() as int) =~= found@.take(f0.len() as int));
            assert(found@.take(f2.len() as int).take(f1.len() as int) =~= found@.take(f1.len() as int));
        }
    }
}

/// Walks the shell of triangle `t`, not reached yet, orienting it like `t`.
fn orient_shell(
    m: &HashMap<u64, u32>,
    ind: &mut Vec<u32>,
    seen: &mut Vec<bool>,
    t: usize,
    Ghost(ind0): Ghost<Seq<u32>>,
) -> (c: Vec<u32>)
    requires
        ind0.len() / 3 <= u32::MAX,
        t < ind0.len() / 3,
        side_map_ok(ind0, m@, 3 * (ind0.len() / 3) as int),
        old(ind)@.len() == ind0.len(),
        old(seen)@.len() == ind0.len() / 3,
        !old(seen)@[t as int],
    ensures
        (final(ind)@, final(seen)@, c@) == orient_from(ind0, old(ind)@, old(seen)@, t as int),
        final(ind)@.len() == ind0.len(),
        final(seen)@.len() == ind0.len() / 3,
        forall|k: int| 0 <= k < c@.len() ==> (#[trigger] c@[k]) < ind0.len() / 3,
{
    let ghost nt = ind0.len() / 3;
    let ghost fuel0 = (nt + 1) as nat;
    let ghost target = orient_from(ind0, old(ind)@, old(seen)@, t as int);
    proof {
        lemma_count_update(seen@, t as int);
    }
    seen.set(t, true);
    let mut found: Vec<u32> = Vec::new();
    found.push(t as u32);
    let ghost base = count_true(seen@) - 1;
    let mut head: usize = 0;
    while head < found.len()
        invariant
            ind0.len() / 3 <= u32::MAX,
            nt == ind0.len() / 3,
            side_map_ok(ind0, m@, 3 * (ind0.len() / 3) as int),
            walk_ok(ind0, (ind@, seen@, found@)),
            head <= found@.len(),
            found@.len() >= 1,
            count_true(seen@) - base == found@.len(),
            base >= 0,
            orient_bfs(ind0, (ind@, seen@, found@), head as int, (fuel0 - head) as nat) == target,
            head <= fuel0,
            fuel0 == nt + 1,
        decreases nt + 1 - head,
    {
        proof {
            lemma_count_bound(seen@);
            assert(head < nt);
        }
        let cur = found[head] as usize;
        let ghost st = (ind@, seen@, found@);
        visit_tri_exec(m, ind, seen, &mut found, cur, Ghost(ind0));
        proof {
            assert(orient_bfs(ind0, st, head as int, (fuel0 - head) as nat) == orient_bfs(
                ind0,
                (ind@, seen@, found@),
                head + 1,
                (fuel0 - head - 1) as nat,
            ));
        }
        head += 1;
    }
    found
}

/// Orients the triangles shell by shell: each shell is walked breadth first
/// from its lowest triangle, which keeps its winding, and every triangle
/// reached across a side it walks the same way is flipped. Returns the new
/// indices and the shells in the order found.
pub fn unify_windings(indices: &[u32]) -> (r: (Vec<u32>, Vec<Vec<u32>>))
    requires
        indices@.len() / 3 <= u32::MAX,
    ensures
        r.0@ == orient_upto(indices@, (indices@.len() / 3) as int).0,
        r.1.deep_view() == orient_upto(indices@, (indices@.len() / 3) as int).2,
        forall|c: int, k: int| 0 <= c < r.1@.len() && 0 <= k < r.1@[c]@.len() ==> #[trigger] r.1@[c]@[k] < indices@.len() / 3,
{
    let ghost ind0 = indices@;
    let m = side_map(indices);
    let nt = indices.len() / 3;
    let mut ind: Vec<u32> = Vec::new();
    let mut z: usize = 0;
    while z < indices.len()
        invariant
            z <= indices@.len(),
            ind@ == indices@.take(z as int),
        decreases indices@.len() - z,
    {
        ind.push(indices[z]);
        z += 1;
        assert(ind@ =~= indices@.take(z as int));
    }
    assert(ind@ =~= ind0);
    let mut seen: Vec<bool> = Vec::new();
    let mut z: usize = 0;
    while z < nt
        invariant
            z <= nt,
            seen@ == Seq::new(z as nat, |i: int| false),
        decreases nt - z,
    {
        seen.push(false);
        z += 1;
        assert(seen@ =~= Seq::new(z as nat, |i: int| false));
    }
    let mut cs: Vec<Vec<u32>> = Vec::new();
    assert(cs.deep_view() =~= Seq::<Seq<u32>>::empty());
    let mut t: usize = 0;
    while t < nt
        invariant
            ind0 == indices@,
            nt == ind0.len() / 3,
            nt <= u32::MAX,
            side_map_ok(ind0, m@, 3 * (ind0.len() / 3) as int),
            t <= nt,
            (ind@, seen@, cs.deep_view()) == orient_upto(ind0, t as int),
            ind@.len() == ind0.len(),
            seen@.len() == nt,
            forall|c: int, k: int| 0 <= c < cs@.len() && 0 <= k < cs@[c]@.len() ==> #[trigger] cs@[c]@[k] < nt,
        decreases nt - t,
    {
        if !seen[t] {
            let c = orient_shell(&m, &mut ind, &mut seen, t, Ghost(ind0));
            let ghost before = cs.deep_view();
            let ghost old_cs = cs@;
            assert(c.deep_view() =~= c@);
            cs.push(c);
            proof {
                assert forall|q: int| 0 <= q < before.len() implies #[trigger] cs.deep_view()[q] == before[q] by {
                    assert(cs@[q] == old_cs[q]);
                }
                assert(cs.deep_view() =~= before.push(c@));
                assert forall|q: int, k: int| 0 <= q < cs@.len() && 0 <= k < cs@[q]@.len() implies #[trigger] cs@[q]@[k] < nt by {
                    if q < old_cs.len() {
                        assert(cs@[q] == old_cs[q]);
                    }
                }
            }
        }
        t += 1;
    }
    (ind, cs)
}

/// Flips every triangle of the shells marked `inward` (shells of the
/// triangles `indices`, as `unify_windings` gives them).
pub open spec fn turned(ind: Seq<u32>, cs: Seq<Seq<u32>>, inward: Seq<bool>, k: int) -> Seq<u32>
    decreases k,
{
    if k <= 0 {
        ind
    } else if inward[k - 1] {
        flip_all(turned(ind, cs, inward, k - 1), cs[k - 1], cs[k - 1].len() as int)
    } else {
        turned(ind, cs, inward, k - 1)
    }
}

/// The first `k` triangles of `c` flipped.
pub open spec fn flip_all(ind: Seq<u32>, c: Seq<u32>, k: int) -> Seq<u32>
    decreases k,
{
    if k <= 0 {
        ind
    } else {
        flipped(flip_all(ind, c, k - 1), c[k - 1] as int)
    }
}

/// Turns over the shells marked `inward` (those whose signed volume the
/// caller found negative): every triangle of them is flipped.
pub fn turn_shells(indices: &mut Vec<u32>, shells: &Vec<Vec<u32>>, inward: &[bool])
    requires
        inward@.len() == shells@.len(),
        forall|c: int, k: int| 0 <= c < shells@.len() && 0 <= k < shells@[c]@.len() ==> 3 * (#[trigger] shells@[c]@[k])
            + 2 < old(indices)@.len(),
    ensures
        final(indices)@ == turned(old(indices)@, shells.deep_view(), inward@, shells@.len() as int),
{
    let ghost ind0 = indices@;
    let ghost cv = shells.deep_view();
    assert forall|c: int| 0 <= c < shells@.len() implies #[trigger] shells@[c]@ == cv[c] by {}
    let len = indices.len();
    let mut c: usize = 0;
    while c < shells.len()
        invariant
            cv == shells.deep_view(),
            forall|q: int| 0 <= q < shells@.len() ==> #[trigger] shells@[q]@ == cv[q],
            inward@.len() == shells@.len(),
            forall|q: int, k: int| 0 <= q < shells@.len() && 0 <= k < shells@[q]@.len() ==> 3 * (#[trigger] shells@[q]@[k]) + 2
                < ind0.len(),
            len == ind0.len(),
            c <= shells@.len(),
            indices@ == turned(ind0, cv, inward@, c as int),
            indices@.len() == ind0.len(),
        decreases shells@.len() - c,
    {
        if inward[c] {
            let sh = &shells[c];
            let ghost start = indices@;
            let mut k: usize = 0;
            while k < sh.len()
                invariant
                    sh@ == cv[c as int],
                    forall|q: int| 0 <= q < sh@.len() ==> 3 * (#[trigger] sh@[q]) + 2 < ind0.len(),
                    len == ind0.len(),
                    k <= sh@.len(),
                    indices@ == flip_all(start, sh@, k as int),
                    indices@.len() == ind0.len(),
                decreases sh@.len() - k,
            {
                assert(3 * sh@[k as int] + 2 < ind0.len());
                let p = 3 * (sh[k] as usize);
                let a = indices[p + 1];
                let b = indices[p + 2];
                indices.set(p + 1, b);
                indices.set(p + 2, a);
                k += 1;
                assert(indices@ =~= flip_all(start, sh@, k as int));
            }
        }
        c += 1;
    }
}

/// `b` holds the triangles of `a`, each as it is or with its winding
/// reversed.
pub open spec fn reoriented(a: Seq<u32>, b: Seq<u32>) -> bool {
    &&& a.len() == b.len()
    &&& forall|i: int| 3 * (a.len() / 3) <= i < a.len() ==> a[i] == b[i]
    &&& forall|t: int|
        0 <= t < a.len() / 3 ==> #[trigger] b[3 * t] == a[3 * t] && ((b[3 * t + 1] == a[3 * t + 1] && b[3 * t + 2] == a[3
            * t + 2]) || (b[3 * t + 1] == a[3 * t + 2] && b[3 * t + 2] == a[3 * t + 1]))
}

proof fn lemma_flip_keeps(a: Seq<u32>, b: Seq<u32>, nb: int)
    requires
        reoriented(a, b),
        0 <= nb < a.len() / 3,
    ensures
        reoriented(a, flipped(b, nb)),
{
    let f = flipped(b, nb);
    assert(3 * nb + 2 < a.len()) by (nonlinear_arith)
        requires
            0 <= nb < a.len() / 3,
    ;
    assert forall|t: int| 0 <= t < a.len() / 3 implies #[trigger] f[3 * t] == a[3 * t] && ((f[3 * t + 1] == a[3 * t + 1] && f[3
        * t + 2] == a[3 * t + 2]) || (f[3 * t + 1] == a[3 * t + 2] && f[3 * t + 2] == a[3 * t + 1])) by {
        assert(b[3 * t] == a[3 * t]);
        if t != nb {
            assert(3 * t + 1 != 3 * nb + 1 && 3 * t + 1 != 3 * nb + 2 && 3 * t + 2 != 3 * nb + 1 && 3 * t + 2 != 3 * nb + 2
                && 3 * t != 3 * nb + 1 && 3 * t != 3 * nb + 2);
        }
    }
    assert forall|i: int| 3 * (a.len() / 3) <= i < a.len() implies a[i] == f[i] by {
        assert(i != 3 * nb + 1 && i != 3 * nb + 2);
    }
}

proof fn lemma_cross_keeps(ind0: Seq<u32>, a: Seq<u32>, st: Walk, u: u32, v: u32)
    requires
        reoriented(a, st.0),
        a.len() == ind0.len(),
    ensures
        reoriented(a, cross_side(ind0, st, u, v).0),
{
    let k3 = 3 * (ind0.len() / 3) as int;
    lemma_owner_bound(ind0, v, u, k3);
    lemma_owner_bound(ind0, u, v, k3);
    if owner(ind0, v, u) is None {
        if let Some(nb) = owner(ind0, u, v) {
            if !st.1[nb as int] {
                lemma_flip_keeps(a, st.0, nb as int);
            }
        }
    }
}

proof fn lemma_bfs_keeps(ind0: Seq<u32>, a: Seq<u32>, st: Walk, head: int, fuel: nat)
    requires
        reoriented(a, st.0),
        a.len() == ind0.len(),
    ensures
        reoriented(a, orient_bfs(ind0, st, head, fuel).0),
    decreases fuel,
{
    if !(fuel == 0 || head < 0 || head >= st.2.len()) {
        let t = st.2[head] as int;
        let ind = st.0;
        let (x, y, z) = (ind[3 * t], ind[3 * t + 1], ind[3 * t + 2]);
        let s1 = cross_side(ind0, st, x, y);
        lemma_cross_keeps(ind0, a, st, x, y);
        let s2 = cross_side(ind0, s1, y, z);
        lemma_cross_keeps(ind0, a, s1, y, z);
        lemma_cross_keeps(ind0, a, s2, z, x);
        lemma_bfs_keeps(ind0, a, visit_tri(ind0, st, t), head + 1, (fuel - 1) as nat);
    }
}

proof fn lemma_upto_keeps(ind0: Seq<u32>, k: int)
    ensures
        reoriented(ind0, orient_upto(ind0, k).0),
    decreases k,
{
    if k > 0 {
        lemma_upto_keeps(ind0, k - 1);
        let (ind, seen, cs) = orient_upto(ind0, k - 1);
        if !seen[k - 1] {
            lemma_bfs_keeps(ind0, ind0, (ind, seen.update(k - 1, true), seq![(k - 1) as u32]), 0, (ind0.len() / 3 + 1) as nat);
        }
    }
}

/// Orienting only turns triangles over: each triangle keeps its first
/// corner and its other two, in the same or the swapped order.
pub proof fn lemma_unify_only_flips(ind0: Seq<u32>)
    ensures
        reoriented(ind0, orient_upto(ind0, (ind0.len() / 3) as int).0),
{
    lemma_upto_keeps(ind0, (ind0.len() / 3) as int);
}

/// No directed side occurs twice among the triangles, so that two
/// triangles sharing a side walk it in opposite directions.
pub open spec fn consistently_wound(ind: Seq<u32>) -> bool {
    forall|x: int, y: int|
        #![trigger dir_side(ind, x), dir_side(ind, y)]
        0 <= x < y < 3 * (ind.len() / 3) ==> dir_side(ind, x) != dir_side(ind, y)
}

proof fn lemma_owner_unique(ind: Seq<u32>, x: int, k: int)
    requires
        consistently_wound(ind),
        0 <= x < k <= 3 * (ind.len() / 3),
    ensures
        owner_upto(ind, dir_side(ind, x).0, dir_side(ind, x).1, k) == Some((x / 3) as u32),
    decreases k,
{
    if k - 1 > x {
        assert(dir_side(ind, x) != dir_side(ind, k - 1));
        lemma_owner_unique(ind, x, k - 1);
    }
}

/// The walk has left the indices as they were, and every triangle found
/// is marked reached.
pub open spec fn walk_still(ind0: Seq<u32>, st: Walk) -> bool {
    &&& st.0 == ind0
    &&& st.1.len() == ind0.len() / 3
    &&& forall|k: int| 0 <= k < st.2.len() ==> (#[trigger] st.2[k]) < ind0.len() / 3 && st.1[st.2[k] as int]
}

proof fn lemma_cross_still(ind0: Seq<u32>, st: Walk, x: int)
    requires
        consistently_wound(ind0),
        ind0.len() / 3 <= u32::MAX,
        walk_still(ind0, st),
        0 <= x < 3 * (ind0.len() / 3),
        st.1[x / 3],
    ensures
        walk_still(ind0, cross_side(ind0, st, dir_side(ind0, x).0, dir_side(ind0, x).1)),
        cross_side(ind0, st, dir_side(ind0, x).0, dir_side(ind0, x).1).1[x / 3],
{
    let (u, v) = dir_side(ind0, x);
    let k3 = 3 * (ind0.len() / 3) as int;
    lemma_owner_bound(ind0, v, u, k3);
    lemma_owner_unique(ind0, x, k3);
    let r = cross_side(ind0, st, u, v);
    if let Some(nb) = owner(ind0, v, u) {
        if !st.1[nb as int] {
            assert forall|k: int| 0 <= k < r.2.len() implies (#[trigger] r.2[k]) < ind0.len() / 3 && r.1[r.2[k] as int] by {
                if k < st.2.len() {
                    assert(st.2[k] == r.2[k]);
                }
            }
        }
    }
}

proof fn lemma_visit_still(ind0: Seq<u32>, st: Walk, t: int)
    requires
        consistently_wound(ind0),
        ind0.len() / 3 <= u32::MAX,
        walk_still(ind0, st),
        0 <= t < ind0.len() / 3,
        st.1[t],
    ensures
        walk_still(ind0, visit_tri(ind0, st, t)),
{
    assert((3 * t) / 3 == t && (3 * t + 1) / 3 == t && (3 * t + 2) / 3 == t);
    assert((3 * t) % 3 == 0 && (3 * t + 1) % 3 == 1 && (3 * t + 2) % 3 == 2);
    assert(3 * t + 2 < 3 * (ind0.len() / 3));
    let (a, b, c) = (ind0[3 * t], ind0[3 * t + 1], ind0[3 * t + 2]);
    assert(dir_side(ind0, 3 * t) == (a, b));
    assert(dir_side(ind0, 3 * t + 1) == (b, c));
    assert(dir_side(ind0, 3 * t + 2) == (c, a));
    lemma_cross_still(ind0, st, 3 * t);
    let s1 = cross_side(ind0, st, a, b);
    lemma_cross_still(ind0, s1, 3 * t + 1);
    let s2 = cross_side(ind0, s1, b, c);
    lemma_cross_still(ind0, s2, 3 * t + 2);
}

proof fn lemma_bfs_still(ind0: Seq<u32>, st: Walk, head: int, fuel: nat)
    requires
        consistently_wound(ind0),
        ind0.len() / 3 <= u32::MAX,
        walk_still(ind0, st),
    ensures
        walk_still(ind0, orient_bfs(ind0, st, head, fuel)),
    decreases fuel,
{
    if !(fuel == 0 || head < 0 || head >= st.2.len()) {
        let t = st.2[head] as int;
        lemma_visit_still(ind0, st, t);
        lemma_bfs_still(ind0, visit_tri(ind0, st, t), head + 1, (fuel - 1) as nat);
    }
}

proof fn lemma_upto_still(ind0: Seq<u32>, k: int)
    requires
        consistently_wound(ind0),
        ind0.len() / 3 <= u32::MAX,
        k <= ind0.len() / 3,
    ensures
        orient_upto(ind0, k).0 == ind0,
        orient_upto(ind0, k).1.len() == ind0.len() / 3,
    decreases k,
{
    if k > 0 {
        lemma_upto_still(ind0, k - 1);
        let (ind, seen, cs) = orient_upto(ind0, k - 1);
        if !seen[k - 1] {
            let st: Walk = (ind, seen.update(k - 1, true), seq![(k - 1) as u32]);
            assert(walk_still(ind0, st));
            lemma_bfs_still(ind0, st, 0, (ind0.len() / 3 + 1) as nat);
        }
    }
}

/// Triangles whose windings already agree come back as they are: no
/// directed side occurs twice, so no triangle is reached across a side it
/// walks the same way, and none is flipped.
pub proof fn lemma_unify_keeps_consistent(ind0: Seq<u32>)
    requires
        consistently_wound(ind0),
        ind0.len() / 3 <= u32::MAX,
    ensures
        orient_upto(ind0, (ind0.len() / 3) as int).0 == ind0,
{
    lemma_upto_still(ind0, (ind0.len() / 3) as int);
}

proof fn lemma_flip_all_keeps(a: Seq<u32>, b: Seq<u32>, c: Seq<u32>, k: int)
    requires
        reoriented(a, b),
        0 <= k <= c.len(),
        forall|q: int| 0 <= q < c.len() ==> (#[trigger] c[q]) < a.len() / 3,
    ensures
        reoriented(a, flip_all(b, c, k)),
    decreases k,
{
    if k > 0 {
        lemma_flip_all_keeps(a, b, c, k - 1);
        lemma_flip_keeps(a, flip_all(b, c, k - 1), c[k - 1] as int);
    }
}

/// Turning shells over only turns triangles over.
pub proof fn lemma_turn_only_flips(a: Seq<u32>, cs: Seq<Seq<u32>>, inward: Seq<bool>, k: int)
    requires
        0 <= k <= cs.len(),
        forall|c: int, q: int| 0 <= c < cs.len() && 0 <= q < cs[c].len() ==> (#[trigger] cs[c][q]) < a.len() / 3,
    ensures
        reoriented(a, turned(a, cs, inward, k)),
    decreases k,
{
    if k <= 0 {
        assert(reoriented(a, a));
    } else {
        lemma_turn_only_flips(a, cs, inward, k - 1);
        if inward[k - 1] {
            assert forall|q: int| 0 <= q < cs[k - 1].len() implies (#[trigger] cs[k - 1][q]) < a.len() / 3 by {}
            lemma_flip_all_keeps(a, turned(a, cs, inward, k - 1), cs[k - 1], cs[k - 1].len() as int);
        }
    }
}

} // verus!
