//! Closed boundary loops (holes) of a triangle mesh: the open edges walked
//! in the direction of their triangles.
use vstd::prelude::*;
use std::collections::HashSet;
use super::boundary::{boundary_edges, find_boundary_edges, BoundaryEdge};
use super::bridge::{code_of, edge_codes, has_half_edge, lemma_walk_steps, step_code, walk, walk_from, step_fresh};

verus! {

broadcast use {vstd::std_specs::hash::group_hash_axioms, vstd::seq_lib::seq_to_set_is_finite};

/// The directed edges of boundary edges.
pub open spec fn directed_of(b: Seq<BoundaryEdge>) -> Seq<(u32, u32)> {
    b.map_values(|e: BoundaryEdge| e.directed)
}

/// The vertices a loop walk visits before each step: all but the last
/// vertex reached.
pub open spec fn loop_vertices(path: Seq<u32>) -> Seq<u32> {
    if path.len() <= 1 {
        seq![]
    } else {
        path.drop_last()
    }
}

/// The loops traced from the first `k` boundary half-edges: a half-edge
/// whose edge was already walked is skipped; otherwise a closing walk from
/// its start is a loop when it comes back to the start after at least three
/// vertices.
pub open spec fn loops_from(he: Seq<(u32, u32)>, k: int) -> (Seq<Seq<u32>>, Set<u64>)
    decreases k,
{
    if k <= 0 {
        (seq![], Set::empty())
    } else {
        let (ls, used) = loops_from(he, k - 1);
        if used.contains(code_of(he[k - 1])) {
            (ls, used)
        } else {
            let s = he[k - 1].0;
            let (p, u2) = walk(he, used, s, s, true, (he.len() + 1) as nat);
            let path = seq![s] + p;
            let verts = loop_vertices(path);
            (if verts.len() >= 3 && path.last() == s {
                ls.push(verts)
            } else {
                ls
            }, u2)
        }
    }
}

/// The holes of the triangles `ind`: the closed loops of their boundary
/// edges, in the order of the edge keys where each is found.
pub open spec fn hole_loops(ind: Seq<u32>) -> Seq<Seq<u32>> {
    let he = directed_of(boundary_edges(ind));
    loops_from(he, he.len() as int).0
}

/// The code of the edge of step `i` of loop `l`: from its vertex `i` to the
/// next one round the loop.
pub open spec fn loop_code(ls: Seq<Seq<u32>>, l: int, i: int) -> u64 {
    code_of((ls[l][i], ls[l][(i + 1) % ls[l].len() as int]))
}

/// Every step of every loop runs along one of the half-edges `he`, and no
/// two steps, of one loop or of two, share an edge.
pub open spec fn loops_along(he: Seq<(u32, u32)>, ls: Seq<Seq<u32>>) -> bool {
    &&& forall|l: int, i: int|
        0 <= l < ls.len() && 0 <= i < ls[l].len() ==> #[trigger] has_half_edge(he, ls[l][i], ls[l][(i + 1) % ls[l].len() as int])
    &&& forall|l1: int, i1: int, l2: int, i2: int|
        0 <= l1 < ls.len() && 0 <= i1 < ls[l1].len() && 0 <= l2 < ls.len() && 0 <= i2 < ls[l2].len() && (l1 != l2 || i1 != i2)
            ==> #[trigger] loop_code(ls, l1, i1) != #[trigger] loop_code(ls, l2, i2)
}

proof fn lemma_loops_from_along(he: Seq<(u32, u32)>, k: int)
    requires
        k <= he.len(),
    ensures
        loops_along(he, loops_from(he, k).0),
        forall|l: int, i: int| 0 <= l < loops_from(he, k).0.len() && 0 <= i < loops_from(he, k).0[l].len()
            ==> loops_from(he, k).1.contains(#[trigger] loop_code(loops_from(he, k).0, l, i)),
    decreases k,
{
    if k > 0 {
        lemma_loops_from_along(he, k - 1);
        let (ls, used) = loops_from(he, k - 1);
        if !used.contains(code_of(he[k - 1])) {
            let s = he[k - 1].0;
            let fuel = (he.len() + 1) as nat;
            lemma_walk_steps(he, used, s, s, true, fuel);
            let w = walk(he, used, s, s, true, fuel);
            let p = w.0;
            let u2 = w.1;
            let path = seq![s] + p;
            let verts = loop_vertices(path);
            if verts.len() >= 3 && path.last() == s {
                let ls2 = ls.push(verts);
                let n = verts.len() as int;
                assert(p.len() == n);
                assert forall|i: int| 0 <= i < n implies #[trigger] loop_code(ls2, ls.len() as int, i) == step_code(path, i)
                    && has_half_edge(he, ls2[ls.len() as int][i], ls2[ls.len() as int][(i + 1) % n]) && !used.contains(step_code(path, i)) by {
                    assert(ls2[ls.len() as int] == verts);
                    assert(step_fresh(he, used, path, i));
                    if i < n - 1 {
                        vstd::arithmetic::div_mod::lemma_small_mod((i + 1) as nat, n as nat);
                    } else {
                        vstd::arithmetic::div_mod::lemma_fundamental_div_mod_converse(n, n, 1, 0);
                        assert(path[i + 1] == path[0]);
                    }
                }
                assert forall|l: int, i: int| 0 <= l < ls.len() && 0 <= i < ls[l].len() implies #[trigger] loop_code(ls2, l, i) == loop_code(ls, l, i) by {
                    assert(ls2[l] == ls[l]);
                }
                assert forall|l: int, i: int| 0 <= l < ls2.len() && 0 <= i < ls2[l].len()
                    implies #[trigger] has_half_edge(he, ls2[l][i], ls2[l][(i + 1) % ls2[l].len() as int]) by {
                    if l < ls.len() {
                        assert(ls2[l] == ls[l]);
                        assert(has_half_edge(he, ls[l][i], ls[l][(i + 1) % ls[l].len() as int]));
                    } else {
                        assert(loop_code(ls2, ls.len() as int, i) == step_code(path, i));
                    }
                }
                assert forall|l1: int, i1: int, l2: int, i2: int|
                    0 <= l1 < ls2.len() && 0 <= i1 < ls2[l1].len() && 0 <= l2 < ls2.len() && 0 <= i2 < ls2[l2].len() && (l1 != l2 || i1 != i2)
                        implies #[trigger] loop_code(ls2, l1, i1) != #[trigger] loop_code(ls2, l2, i2) by {
                    if l1 < ls.len() && l2 < ls.len() {
                        assert(loop_code(ls2, l1, i1) == loop_code(ls, l1, i1));
                        assert(loop_code(ls2, l2, i2) == loop_code(ls, l2, i2));
                    } else if l1 < ls.len() {
                        assert(loop_code(ls2, l1, i1) == loop_code(ls, l1, i1));
                        assert(used.contains(loop_code(ls, l1, i1)));
                        assert(loop_code(ls2, l2, i2) == step_code(path, i2));
                    } else if l2 < ls.len() {
                        assert(loop_code(ls2, l2, i2) == loop_code(ls, l2, i2));
                        assert(used.contains(loop_code(ls, l2, i2)));
                        assert(loop_code(ls2, l1, i1) == step_code(path, i1));
                    } else {
                        assert(loop_code(ls2, l1, i1) == step_code(path, i1));
                        assert(loop_code(ls2, l2, i2) == step_code(path, i2));
                        if i1 < i2 {
                            assert(step_code(path, i1) != step_code(path, i2));
                        } else {
                            assert(step_code(path, i2) != step_code(path, i1));
                        }
                    }
                }
                assert forall|l: int, i: int| 0 <= l < ls2.len() && 0 <= i < ls2[l].len()
                    implies u2.contains(#[trigger] loop_code(ls2, l, i)) by {
                    if l < ls.len() {
                        assert(loop_code(ls2, l, i) == loop_code(ls, l, i));
                        assert(used.contains(loop_code(ls, l, i)));
                    } else {
                        assert(loop_code(ls2, l, i) == step_code(path, i));
                    }
                }
            } else {
                assert forall|l: int, i: int| 0 <= l < ls.len() && 0 <= i < ls[l].len()
                    implies u2.contains(#[trigger] loop_code(ls, l, i)) by {
                    assert(used.contains(loop_code(ls, l, i)));
                }
            }
        }
    }
}

/// The holes run along the boundary: every step of a hole loop, from one
/// of its vertices to the next round the loop, is a boundary edge walked in
/// the direction of its triangle, and no two steps, of one loop or of two,
/// share an edge.
pub proof fn lemma_hole_loops_along_boundary(ind: Seq<u32>)
    ensures
        loops_along(directed_of(boundary_edges(ind)), hole_loops(ind)),
{
    let he = directed_of(boundary_edges(ind));
    lemma_loops_from_along(he, he.len() as int);
}

/// Traces the closed boundary loops (holes) of the triangles `indices`.
pub fn trace_hole_loops(indices: &[u32]) -> (loops: Vec<Vec<u32>>)
    ensures
        loops.deep_view() == hole_loops(indices@),
{
    let b_edges = find_boundary_edges(indices);
    let mut he: Vec<(u32, u32)> = Vec::new();
    let mut codes: Vec<u64> = Vec::new();
    let mut x: usize = 0;
    while x < b_edges.len()
        invariant
            x <= b_edges@.len(),
            he@ == directed_of(b_edges@).take(x as int),
            codes@.len() == x,
            forall|j: int| 0 <= j < x ==> #[trigger] codes@[j] == code_of(he@[j]),
        decreases b_edges@.len() - x,
    {
        let d = b_edges[x].directed;
        he.push(d);
        codes.push(super::boundary::key_code_exec(d.0, d.1));
        x += 1;
        assert(he@ =~= directed_of(b_edges@).take(x as int));
    }
    assert(directed_of(b_edges@).take(b_edges@.len() as int) =~= directed_of(b_edges@));
    let ghost hs = he@;
    let ghost k = edge_codes(hs);
    let ghost fuel = (hs.len() + 1) as nat;
    proof {
        hs.map_values(|e: (u32, u32)| code_of(e)).lemma_cardinality_of_set();
    }
    let mut used: HashSet<u64> = HashSet::new();
    let mut loops: Vec<Vec<u32>> = Vec::new();
    let mut i: usize = 0;
    while i < he.len()
        invariant
            hs == he@,
            i <= hs.len(),
            k == edge_codes(hs),
            k.len() <= hs.len(),
            fuel == hs.len() + 1,
            codes@.len() == hs.len(),
            forall|j: int| 0 <= j < hs.len() ==> #[trigger] codes@[j] == code_of(hs[j]),
            used@.subset_of(k),
            (loops.deep_view(), used@) == loops_from(hs, i as int),
        decreases hs.len() - i,
    {
        if !used.contains(&codes[i]) {
            let s = he[i].0;
            proof {
                vstd::set_lib::lemma_len_subset(k.difference(used@), k);
            }
            let mut path = walk_from(&he, &codes, &mut used, s, true, Ghost(fuel));
            let ghost full = path@;
            let closed = path[path.len() - 1] == s;
            if path.len() > 1 {
                path.pop();
            } else {
                path = Vec::new();
            }
            assert(path@ =~= loop_vertices(full));
            let ghost old_loops = loops.deep_view();
            let ghost pv = path@;
            assert(path.deep_view() =~= pv);
            if path.len() >= 3 && closed {
                loops.push(path);
                proof {
                    assert(loops.deep_view() =~= old_loops.push(pv));
                }
            }
        }
        i += 1;
    }
    loops
}

} // verus!
