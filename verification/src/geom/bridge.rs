//! Bridging two boundary chains: the choice of trajectory.
use vstd::prelude::*;
use std::collections::HashSet;
use super::boundary::{key_code, tri_edge};
use super::shells::{find_shells, shells};
use super::topology::MeshTopology;
use crate::graph::lists;
use super::guided_fill::{increasing, insert_sorted};

verus! {

broadcast use {vstd::std_specs::hash::group_hash_axioms, vstd::seq_lib::seq_to_set_is_finite};

/// Trajectory / curvature algorithm for the bridge.
#[derive(Clone, Copy, PartialEq, Eq, Debug)]
pub enum BridgeMethod {
    /// Smooth cubic Hermite spline preserving surface tangency and curvature at bridgeheads.
    CubicHermite,
    /// Direct linear interpolation across the span.
    Linear,
    /// Direct interpolation with an adjustable parabolic bulge / arch.
    BulgeArc,
}

impl BridgeMethod {
    /// The label shown for the method.
    pub open spec fn spec_display_name(self) -> Seq<char> {
        match self {
            BridgeMethod::CubicHermite => "Cubic Hermite (Curved)"@,
            BridgeMethod::Linear => "Linear (Straight)"@,
            BridgeMethod::BulgeArc => "Bulge / Arch"@,
        }
    }

    /// Every method, in the order they are offered.
    pub fn all() -> (r: [BridgeMethod; 3])
        ensures
            r@ == seq![BridgeMethod::CubicHermite, BridgeMethod::Linear, BridgeMethod::BulgeArc],
    {
        let r = [BridgeMethod::CubicHermite, BridgeMethod::Linear, BridgeMethod::BulgeArc];
        assert(r@ =~= seq![BridgeMethod::CubicHermite, BridgeMethod::Linear, BridgeMethod::BulgeArc]);
        r
    }

    pub fn display_name(&self) -> (s: &'static str)
        ensures
            s@ == self.spec_display_name(),
    {
        match self {
            BridgeMethod::CubicHermite => "Cubic Hermite (Curved)",
            BridgeMethod::Linear => "Linear (Straight)",
            BridgeMethod::BulgeArc => "Bulge / Arch",
        }
    }
}

// ---------------------------------------------------------------------------
// Boundary chains of a selection
// ---------------------------------------------------------------------------

/// The code of the undirected edge of a half-edge.
pub open spec fn code_of(e: (u32, u32)) -> u64 {
    key_code(e.0, e.1)
}

/// The codes of the edges of all half-edges.
pub open spec fn edge_codes(he: Seq<(u32, u32)>) -> Set<u64> {
    he.map_values(|e: (u32, u32)| code_of(e)).to_set()
}

/// The first half-edge at or after `j` that leaves `v` and whose edge is
/// not in `used`.
pub open spec fn first_out(he: Seq<(u32, u32)>, used: Set<u64>, v: u32, j: int) -> Option<int>
    decreases he.len() - j,
{
    if j < 0 || j >= he.len() {
        None
    } else if he[j].0 == v && !used.contains(code_of(he[j])) {
        Some(j)
    } else {
        first_out(he, used, v, j + 1)
    }
}

/// A walk from `curr`: each step takes the first half-edge out of the
/// current vertex whose edge is unused, and uses that edge; a closing walk
/// stops when it comes back to `start`. The vertices reached, and the used
/// edges afterwards.
pub open spec fn walk(he: Seq<(u32, u32)>, used: Set<u64>, curr: u32, start: u32, closing: bool, fuel: nat) -> (Seq<u32>, Set<u64>)
    decreases fuel,
{
    if fuel == 0 {
        (seq![], used)
    } else {
        match first_out(he, used, curr, 0) {
            None => (seq![], used),
            Some(j) => {
                let nxt = he[j].1;
                let used1 = used.insert(code_of(he[j]));
                if closing && nxt == start {
                    (seq![nxt], used1)
                } else {
                    let (p, u2) = walk(he, used1, nxt, start, closing, (fuel - 1) as nat);
                    (seq![nxt] + p, u2)
                }
            },
        }
    }
}

/// Some half-edge runs from `a` to `b`.
pub open spec fn has_half_edge(he: Seq<(u32, u32)>, a: u32, b: u32) -> bool {
    exists|j: int| 0 <= j < he.len() && he[j] == (a, b)
}

/// The code of the edge of step `i` of the vertex path `q`.
pub open spec fn step_code(q: Seq<u32>, i: int) -> u64 {
    code_of((q[i], q[i + 1]))
}

/// The walk `w` from `curr` (its vertices after `curr`, and the used edges
/// afterwards): each step runs along a half-edge whose edge was not in
/// `used`, no two steps share an edge, and the edges of the steps are used
/// afterwards, besides those used before.
/// Step `i` of the vertex path `q` runs along a half-edge whose edge is not
/// in `used`.
pub open spec fn step_fresh(he: Seq<(u32, u32)>, used: Set<u64>, q: Seq<u32>, i: int) -> bool {
    has_half_edge(he, q[i], q[i + 1]) && !used.contains(step_code(q, i))
}

pub open spec fn walk_fresh(he: Seq<(u32, u32)>, used: Set<u64>, curr: u32, p: Seq<u32>, u2: Set<u64>) -> bool {
    let q = seq![curr] + p;
    &&& forall|i: int| 0 <= i < p.len() ==> #[trigger] step_fresh(he, used, q, i)
    &&& forall|i: int, k: int| 0 <= i < k < p.len() ==> #[trigger] step_code(q, i) != #[trigger] step_code(q, k)
    &&& forall|i: int| 0 <= i < p.len() ==> u2.contains(#[trigger] step_code(q, i))
    &&& forall|c: u64| used.contains(c) ==> #[trigger] u2.contains(c)
}

/// The edges used after a walk are those used before and those of its
/// steps.
pub open spec fn walk_adds_steps(used: Set<u64>, curr: u32, p: Seq<u32>, u2: Set<u64>) -> bool {
    forall|c: u64| #[trigger] u2.contains(c) ==> used.contains(c) || exists|i: int| 0 <= i < p.len() && step_code(seq![curr] + p, i) == c
}

/// Each step of a walk runs along a half-edge whose edge was unused, no two
/// steps share an edge, and the edges used afterwards are those used before
/// and those of the steps.
pub proof fn lemma_walk_steps(he: Seq<(u32, u32)>, used: Set<u64>, curr: u32, start: u32, closing: bool, fuel: nat)
    ensures
        walk_fresh(he, used, curr, walk(he, used, curr, start, closing, fuel).0, walk(he, used, curr, start, closing, fuel).1),
        walk_adds_steps(used, curr, walk(he, used, curr, start, closing, fuel).0, walk(he, used, curr, start, closing, fuel).1),
    decreases fuel,
{
    if fuel > 0 {
        lemma_first_out(he, used, curr, 0);
        if let Some(j) = first_out(he, used, curr, 0) {
            let nxt = he[j].1;
            let used1 = used.insert(code_of(he[j]));
            if !(closing && nxt == start) {
                lemma_walk_steps(he, used1, nxt, start, closing, (fuel - 1) as nat);
                let w1 = walk(he, used1, nxt, start, closing, (fuel - 1) as nat);
                let p1 = w1.0;
                let u2 = w1.1;
                let q1 = seq![nxt] + p1;
                let w = walk(he, used, curr, start, closing, fuel);
                let p = w.0;
                let u = w.1;
                let q = seq![curr] + p;
                assert(p == seq![nxt] + p1);
                assert forall|i: int| 0 < i <= p1.len() implies #[trigger] step_code(q, i) == step_code(q1, i - 1) by {
                    assert(q[i] == q1[i - 1] && q[i + 1] == q1[i]);
                }
                assert(step_code(q, 0) == code_of(he[j]));
                assert forall|i: int| 0 <= i < p.len() implies #[trigger] step_fresh(he, used, q, i) by {
                    if i == 0 {
                        assert(he[j] == (q[0], q[1]));
                    } else {
                        assert(step_fresh(he, used1, q1, i - 1));
                        assert(step_code(q, i) == step_code(q1, i - 1));
                        assert(q[i] == q1[i - 1] && q[i + 1] == q1[i]);
                    }
                }
                assert forall|i: int, k: int| 0 <= i < k < p.len() implies #[trigger] step_code(q, i) != #[trigger] step_code(q, k) by {
                    assert(step_code(q, k) == step_code(q1, k - 1));
                    assert(step_fresh(he, used1, q1, k - 1));
                    assert(used1.contains(code_of(he[j])));
                    if i > 0 {
                        assert(step_code(q, i) == step_code(q1, i - 1));
                    }
                }
                assert forall|i: int| 0 <= i < p.len() implies u.contains(#[trigger] step_code(q, i)) by {
                    if i > 0 {
                        assert(step_code(q, i) == step_code(q1, i - 1));
                    } else {
                        assert(used1.contains(code_of(he[j])));
                    }
                }
                assert forall|c: u64| used.contains(c) implies #[trigger] u.contains(c) by {
                    assert(used1.contains(c));
                }
                assert(walk_fresh(he, used, curr, p, u));
                assert forall|c: u64| #[trigger] u.contains(c) implies used.contains(c) || exists|i: int| 0 <= i < p.len() && step_code(q, i) == c by {
                    if !used1.contains(c) {
                        let i = choose|i: int| 0 <= i < p1.len() && step_code(q1, i) == c;
                        assert(step_code(q, i + 1) == step_code(q1, i));
                    } else if !used.contains(c) {
                        assert(step_code(q, 0) == c);
                    }
                }
            } else {
                let w = walk(he, used, curr, start, closing, fuel);
                let p = w.0;
                let u = w.1;
                let q = seq![curr] + p;
                assert(q[0] == curr && q[1] == nxt);
                assert(he[j] == (q[0], q[1]));
                assert(step_code(q, 0) == code_of(he[j]));
                assert(p.len() == 1);
                assert(has_half_edge(he, q[0], q[1]));
                assert(u.contains(step_code(q, 0)));
                assert forall|c: u64| used.contains(c) implies #[trigger] u.contains(c) by {}
                assert(walk_fresh(he, used, curr, p, u));
                assert forall|c: u64| #[trigger] u.contains(c) implies used.contains(c) || exists|i: int| 0 <= i < p.len() && step_code(q, i) == c by {
                    if !used.contains(c) {
                        assert(step_code(q, 0) == c);
                    }
                }
            }
        } else {
            let w = walk(he, used, curr, start, closing, fuel);
            let p = w.0;
            let u = w.1;
            assert(p.len() == 0 && u == used);
            assert(walk_fresh(he, used, curr, p, u));
        }
    } else {
        let w = walk(he, used, curr, start, closing, fuel);
        let p = w.0;
        let u = w.1;
        assert(p.len() == 0 && u == used);
    }
}

/// Vertex `u` starts a half-edge and ends none.
pub open spec fn is_open_start(he: Seq<(u32, u32)>, u: int) -> bool {
    &&& exists|j: int| 0 <= j < he.len() && he[j].0 == u
    &&& forall|k: int| 0 <= k < he.len() ==> he[k].1 != u
}

/// The open starts in increasing order.
pub open spec fn open_starts(he: Seq<(u32, u32)>) -> Seq<usize> {
    choose|s: Seq<usize>| increasing(s) && forall|u: usize| #[trigger] s.contains(u) <==> is_open_start(he, u as int)
}

/// The chains traced from the first `k` open starts, and the used edges.
pub open spec fn open_chains(he: Seq<(u32, u32)>, starts: Seq<usize>, k: int) -> (Seq<Seq<u32>>, Set<u64>)
    decreases k,
{
    if k <= 0 {
        (seq![], Set::empty())
    } else {
        let (cs, used) = open_chains(he, starts, k - 1);
        let s = starts[k - 1] as u32;
        let (p, u2) = walk(he, used, s, s, false, (he.len() + 1) as nat);
        let path = seq![s] + p;
        (if path.len() >= 2 {
            cs.push(path)
        } else {
            cs
        }, u2)
    }
}

/// A closed walk without the repeated start vertex (of at least three).
pub open spec fn opened(path: Seq<u32>) -> Seq<u32> {
    if path.len() >= 3 && path[0] == path.last() {
        path.drop_last()
    } else {
        path
    }
}

/// After `init`, the closing walks from the starts of the first `k`
/// half-edges.
pub open spec fn cycle_chains(he: Seq<(u32, u32)>, k: int, init: (Seq<Seq<u32>>, Set<u64>)) -> (Seq<Seq<u32>>, Set<u64>)
    decreases k,
{
    if k <= 0 {
        init
    } else {
        let (cs, used) = cycle_chains(he, k - 1, init);
        let u = he[k - 1].0;
        let (p, u2) = walk(he, used, u, u, true, (he.len() + 1) as nat);
        let path = opened(seq![u] + p);
        (if path.len() >= 2 {
            cs.push(path)
        } else {
            cs
        }, u2)
    }
}

/// The chains of a set of half-edges: first the open paths, from the
/// vertices that no half-edge enters (in increasing order), then the cycles;
/// every edge is walked once. Paths of a single vertex are dropped.
pub open spec fn traced_chains(he: Seq<(u32, u32)>) -> Seq<Seq<u32>> {
    let starts = open_starts(he);
    cycle_chains(he, he.len() as int, open_chains(he, starts, starts.len() as int)).0
}

/// The code of the edge of step `i` of chain `c`.
pub open spec fn chain_code(cs: Seq<Seq<u32>>, c: int, i: int) -> u64 {
    code_of((cs[c][i], cs[c][i + 1]))
}

/// Every step of every chain, from one of its vertices to the next, runs
/// along one of the half-edges `he`, and no two steps, of one chain or of
/// two, share an edge.
pub open spec fn chains_along(he: Seq<(u32, u32)>, cs: Seq<Seq<u32>>) -> bool {
    &&& forall|c: int, i: int| 0 <= c < cs.len() && 0 <= i < cs[c].len() - 1 ==> #[trigger] has_half_edge(he, cs[c][i], cs[c][i + 1])
    &&& forall|c1: int, i1: int, c2: int, i2: int|
        0 <= c1 < cs.len() && 0 <= i1 < cs[c1].len() - 1 && 0 <= c2 < cs.len() && 0 <= i2 < cs[c2].len() - 1 && (c1 != c2 || i1 != i2)
            ==> #[trigger] chain_code(cs, c1, i1) != #[trigger] chain_code(cs, c2, i2)
}

/// The chains run along the half-edges without sharing an edge, and their
/// edges are in `used`.
pub open spec fn chains_used(he: Seq<(u32, u32)>, cs: Seq<Seq<u32>>, used: Set<u64>) -> bool {
    &&& chains_along(he, cs)
    &&& forall|c: int, i: int| 0 <= c < cs.len() && 0 <= i < cs[c].len() - 1 ==> used.contains(#[trigger] chain_code(cs, c, i))
}

/// A walk from `s` keeps the chains as they were, or adds the first `m`
/// vertices of its path as a new chain.
proof fn lemma_chain_push(he: Seq<(u32, u32)>, cs: Seq<Seq<u32>>, used: Set<u64>, s: u32, p: Seq<u32>, u2: Set<u64>, m: int, add: bool)
    requires
        chains_used(he, cs, used),
        walk_fresh(he, used, s, p, u2),
        add ==> 2 <= m <= p.len() + 1,
    ensures
        chains_used(he, if add { cs.push((seq![s] + p).take(m)) } else { cs }, u2),
{
    let path = seq![s] + p;
    if add {
        let c2 = path.take(m);
        let cs2 = cs.push(c2);
        let nc = cs.len() as int;
        assert forall|c: int, i: int| 0 <= c < cs.len() && 0 <= i < cs[c].len() - 1 implies #[trigger] chain_code(cs2, c, i) == chain_code(cs, c, i) by {
            assert(cs2[c] == cs[c]);
        }
        assert forall|i: int| 0 <= i < m - 1 implies #[trigger] chain_code(cs2, nc, i) == step_code(path, i)
            && has_half_edge(he, cs2[nc][i], cs2[nc][i + 1]) && !used.contains(step_code(path, i)) by {
            assert(cs2[nc] == c2);
            assert(step_fresh(he, used, path, i));
        }
        assert forall|c: int, i: int| 0 <= c < cs2.len() && 0 <= i < cs2[c].len() - 1 implies #[trigger] has_half_edge(he, cs2[c][i], cs2[c][i + 1]) by {
            if c < nc {
                assert(cs2[c] == cs[c]);
                assert(has_half_edge(he, cs[c][i], cs[c][i + 1]));
            } else {
                assert(chain_code(cs2, nc, i) == step_code(path, i));
            }
        }
        assert forall|c1: int, i1: int, c2i: int, i2: int|
            0 <= c1 < cs2.len() && 0 <= i1 < cs2[c1].len() - 1 && 0 <= c2i < cs2.len() && 0 <= i2 < cs2[c2i].len() - 1 && (c1 != c2i || i1 != i2)
                implies #[trigger] chain_code(cs2, c1, i1) != #[trigger] chain_code(cs2, c2i, i2) by {
            if c1 < nc && c2i < nc {
                assert(chain_code(cs2, c1, i1) == chain_code(cs, c1, i1));
                assert(chain_code(cs2, c2i, i2) == chain_code(cs, c2i, i2));
            } else if c1 < nc {
                assert(chain_code(cs2, c1, i1) == chain_code(cs, c1, i1));
                assert(used.contains(chain_code(cs, c1, i1)));
                assert(chain_code(cs2, c2i, i2) == step_code(path, i2));
            } else if c2i < nc {
                assert(chain_code(cs2, c2i, i2) == chain_code(cs, c2i, i2));
                assert(used.contains(chain_code(cs, c2i, i2)));
                assert(chain_code(cs2, c1, i1) == step_code(path, i1));
            } else {
                assert(chain_code(cs2, c1, i1) == step_code(path, i1));
                assert(chain_code(cs2, c2i, i2) == step_code(path, i2));
                if i1 < i2 {
                    assert(step_code(path, i1) != step_code(path, i2));
                } else {
                    assert(step_code(path, i2) != step_code(path, i1));
                }
            }
        }
        assert forall|c: int, i: int| 0 <= c < cs2.len() && 0 <= i < cs2[c].len() - 1 implies u2.contains(#[trigger] chain_code(cs2, c, i)) by {
            if c < nc {
                assert(chain_code(cs2, c, i) == chain_code(cs, c, i));
                assert(used.contains(chain_code(cs, c, i)));
            } else {
                assert(chain_code(cs2, nc, i) == step_code(path, i));
            }
        }
    } else {
        assert forall|c: int, i: int| 0 <= c < cs.len() && 0 <= i < cs[c].len() - 1 implies u2.contains(#[trigger] chain_code(cs, c, i)) by {
            assert(used.contains(chain_code(cs, c, i)));
        }
    }
}

proof fn lemma_open_chains_along(he: Seq<(u32, u32)>, starts: Seq<usize>, k: int)
    ensures
        chains_used(he, open_chains(he, starts, k).0, open_chains(he, starts, k).1),
    decreases k,
{
    if k > 0 {
        lemma_open_chains_along(he, starts, k - 1);
        let (cs, used) = open_chains(he, starts, k - 1);
        let s = starts[k - 1] as u32;
        let fuel = (he.len() + 1) as nat;
        lemma_walk_steps(he, used, s, s, false, fuel);
        let w = walk(he, used, s, s, false, fuel);
        let path = seq![s] + w.0;
        assert(path.take(path.len() as int) == path);
        lemma_chain_push(he, cs, used, s, w.0, w.1, path.len() as int, path.len() >= 2);
    }
}

proof fn lemma_cycle_chains_along(he: Seq<(u32, u32)>, k: int, init: (Seq<Seq<u32>>, Set<u64>))
    requires
        chains_used(he, init.0, init.1),
    ensures
        chains_used(he, cycle_chains(he, k, init).0, cycle_chains(he, k, init).1),
    decreases k,
{
    if k > 0 {
        lemma_cycle_chains_along(he, k - 1, init);
        let (cs, used) = cycle_chains(he, k - 1, init);
        let u = he[k - 1].0;
        let fuel = (he.len() + 1) as nat;
        lemma_walk_steps(he, used, u, u, true, fuel);
        let w = walk(he, used, u, u, true, fuel);
        let full = seq![u] + w.0;
        let path = opened(full);
        let m = path.len() as int;
        assert(path == full.take(m));
        lemma_chain_push(he, cs, used, u, w.0, w.1, m, m >= 2);
    }
}

/// The chains of a set of half-edges run along them: each step of a chain,
/// from one of its vertices to the next, is one of the half-edges, and no
/// two steps, of one chain or of two, share an edge.
pub proof fn lemma_chains_along(he: Seq<(u32, u32)>)
    ensures
        chains_along(he, traced_chains(he)),
{
    let starts = open_starts(he);
    lemma_open_chains_along(he, starts, starts.len() as int);
    lemma_cycle_chains_along(he, he.len() as int, open_chains(he, starts, starts.len() as int));
}

/// Chain `c` has edge `code` at position `i`: as a step from vertex `i` to
/// the next, or, at its last vertex, as the step back to its first vertex.
pub open spec fn covers_at(cs: Seq<Seq<u32>>, c: int, i: int, code: u64) -> bool {
    ||| (0 <= i < cs[c].len() - 1 && chain_code(cs, c, i) == code)
    ||| (i == cs[c].len() - 1 && cs[c].len() >= 2 && code_of((cs[c][i], cs[c][0])) == code)
}

/// Some chain has edge `code`.
pub open spec fn chain_covers(cs: Seq<Seq<u32>>, code: u64) -> bool {
    exists|c: int, i: int| 0 <= c < cs.len() && #[trigger] covers_at(cs, c, i, code)
}

/// The chains have two vertices or more and hold every edge in `used`.
pub open spec fn chains_cover(cs: Seq<Seq<u32>>, used: Set<u64>) -> bool {
    &&& forall|c: int| 0 <= c < cs.len() ==> #[trigger] cs[c].len() >= 2
    &&& forall|code: u64| #[trigger] used.contains(code) ==> chain_covers(cs, code)
}

proof fn lemma_cover_push(cs: Seq<Seq<u32>>, used: Set<u64>, s: u32, p: Seq<u32>, u2: Set<u64>, m: int, add: bool)
    requires
        chains_cover(cs, used),
        walk_adds_steps(used, s, p, u2),
        add ==> 2 <= m <= p.len() + 1 && (m == p.len() + 1 || (m == p.len() && (seq![s] + p)[m] == s)),
        !add ==> p.len() == 0,
    ensures
        chains_cover(if add { cs.push((seq![s] + p).take(m)) } else { cs }, u2),
{
    let full = seq![s] + p;
    let cs2 = if add { cs.push(full.take(m)) } else { cs };
    assert forall|c: int| 0 <= c < cs2.len() implies #[trigger] cs2[c].len() >= 2 by {
        if c < cs.len() {
            assert(cs2[c] == cs[c]);
        }
    }
    assert forall|code: u64| #[trigger] u2.contains(code) implies chain_covers(cs2, code) by {
        if used.contains(code) {
            let (c, i) = choose|c: int, i: int| 0 <= c < cs.len() && #[trigger] covers_at(cs, c, i, code);
            assert(cs2[c] == cs[c]);
            assert(covers_at(cs2, c, i, code));
        } else {
            let i = choose|i: int| 0 <= i < p.len() && step_code(full, i) == code;
            assert(add);
            let n = cs.len() as int;
            let ch = full.take(m);
            assert(cs2[n] == ch);
            if i < m - 1 {
                assert(ch[i] == full[i] && ch[i + 1] == full[i + 1]);
                assert(covers_at(cs2, n, i, code));
            } else {
                assert(i == m - 1 && m == p.len());
                assert(ch[i] == full[i] && ch[0] == full[0] && full[m] == s);
                assert(covers_at(cs2, n, i, code));
            }
        }
    }
}

proof fn lemma_open_chains_cover(he: Seq<(u32, u32)>, starts: Seq<usize>, k: int)
    ensures
        chains_cover(open_chains(he, starts, k).0, open_chains(he, starts, k).1),
    decreases k,
{
    if k > 0 {
        lemma_open_chains_cover(he, starts, k - 1);
        let (cs, used) = open_chains(he, starts, k - 1);
        let s = starts[k - 1] as u32;
        let fuel = (he.len() + 1) as nat;
        lemma_walk_steps(he, used, s, s, false, fuel);
        let w = walk(he, used, s, s, false, fuel);
        let path = seq![s] + w.0;
        assert(path.take(path.len() as int) == path);
        lemma_cover_push(cs, used, s, w.0, w.1, path.len() as int, path.len() >= 2);
    } else {
        assert(chains_cover(open_chains(he, starts, k).0, open_chains(he, starts, k).1));
    }
}

/// Where `j` is the first half-edge at or after `i` out of `u` with an
/// unused edge, `first_out` finds it.
proof fn lemma_first_out_is(he: Seq<(u32, u32)>, used: Set<u64>, u: u32, i: int, j: int)
    requires
        0 <= i <= j < he.len(),
        he[j].0 == u,
        !used.contains(code_of(he[j])),
        forall|x: int| i <= x < j && he[x].0 == u ==> used.contains(code_of(#[trigger] he[x])),
    ensures
        first_out(he, used, u, i) == Some(j),
    decreases j - i,
{
    if i < j {
        lemma_first_out_is(he, used, u, i + 1, j);
    }
}

proof fn lemma_cycle_chains_cover(he: Seq<(u32, u32)>, k: int, init: (Seq<Seq<u32>>, Set<u64>))
    requires
        chains_cover(init.0, init.1),
        k <= he.len(),
    ensures
        chains_cover(cycle_chains(he, k, init).0, cycle_chains(he, k, init).1),
        forall|j: int| 0 <= j < k ==> cycle_chains(he, k, init).1.contains(code_of(#[trigger] he[j])),
        forall|c: u64| init.1.contains(c) ==> #[trigger] cycle_chains(he, k, init).1.contains(c),
    decreases k,
{
    if k > 0 {
        lemma_cycle_chains_cover(he, k - 1, init);
        let (cs, used) = cycle_chains(he, k - 1, init);
        let u = he[k - 1].0;
        let fuel = (he.len() + 1) as nat;
        lemma_walk_steps(he, used, u, u, true, fuel);
        let w = walk(he, used, u, u, true, fuel);
        let full = seq![u] + w.0;
        let path = opened(full);
        let m = path.len() as int;
        if full.len() >= 3 && full[0] == full.last() {
            assert(path == full.take(m));
            assert(full[m] == u);
        } else {
            assert(path == full.take(m));
        }
        lemma_cover_push(cs, used, u, w.0, w.1, m, m >= 2);
        if !used.contains(code_of(he[k - 1])) {
            lemma_first_out_is(he, used, u, 0, k - 1);
            assert(w.0.len() > 0 && w.0[0] == he[k - 1].1);
            assert(full[0] == u && full[1] == he[k - 1].1);
            assert(step_code(full, 0) == code_of(he[k - 1]));
            assert(step_fresh(he, used, full, 0));
        }
    }
}

/// The chains of a set of half-edges have two vertices or more and cover
/// every half-edge: its edge is a step of a chain, or joins the last vertex
/// of a chain back to its first.
pub proof fn lemma_chains_cover(he: Seq<(u32, u32)>)
    ensures
        forall|c: int| 0 <= c < traced_chains(he).len() ==> #[trigger] traced_chains(he)[c].len() >= 2,
        forall|k: int| 0 <= k < he.len() ==> chain_covers(traced_chains(he), code_of(#[trigger] he[k])),
{
    let starts = open_starts(he);
    lemma_open_chains_cover(he, starts, starts.len() as int);
    let init = open_chains(he, starts, starts.len() as int);
    lemma_cycle_chains_cover(he, he.len() as int, init);
}

/// Two increasing sequences with the same elements are equal.
proof fn lemma_increasing_unique(a: Seq<usize>, b: Seq<usize>)
    requires
        increasing(a),
        increasing(b),
        forall|u: usize| #[trigger] a.contains(u) <==> b.contains(u),
    ensures
        a == b,
    decreases a.len() + b.len(),
{
    if a.len() == 0 || b.len() == 0 {
        if a.len() > 0 {
            assert(a.contains(a[0]));
            assert(b.contains(a[0]));
        }
        if b.len() > 0 {
            assert(b.contains(b[0]));
            assert(a.contains(b[0]));
        }
        assert(a =~= b);
    } else {
        assert(a.contains(a[0]));
        assert(b.contains(a[0]));
        assert(b.contains(b[0]));
        assert(a.contains(b[0]));
        let i = choose|i: int| 0 <= i < b.len() && b[i] == a[0];
        let k = choose|k: int| 0 <= k < a.len() && a[k] == b[0];
        if i > 0 {
            assert(b[0] < b[i]);
            if k > 0 {
                assert(a[0] < a[k]);
            }
            assert(false);
        }
        assert(a[0] == b[0]);
        let a1 = a.drop_first();
        let b1 = b.drop_first();
        assert forall|u: usize| #[trigger] a1.contains(u) <==> b1.contains(u) by {
            if a1.contains(u) {
                let x = choose|x: int| 0 <= x < a1.len() && a1[x] == u;
                assert(a[x + 1] == u && a[0] < a[x + 1]);
                assert(a.contains(u));
                assert(b.contains(u));
                let y = choose|y: int| 0 <= y < b.len() && b[y] == u;
                assert(y != 0);
                assert(b1[y - 1] == u);
            }
            if b1.contains(u) {
                let x = choose|x: int| 0 <= x < b1.len() && b1[x] == u;
                assert(b[x + 1] == u && b[0] < b[x + 1]);
                assert(b.contains(u));
                assert(a.contains(u));
                let y = choose|y: int| 0 <= y < a.len() && a[y] == u;
                assert(y != 0);
                assert(a1[y - 1] == u);
            }
        }
        lemma_increasing_unique(a1, b1);
        assert(a =~= seq![a[0]] + a1);
        assert(b =~= seq![b[0]] + b1);
    }
}

proof fn lemma_first_out(he: Seq<(u32, u32)>, used: Set<u64>, v: u32, j: int)
    requires
        0 <= j,
    ensures
        first_out(he, used, v, j) matches Some(x) ==> j <= x < he.len() && he[x].0 == v && !used.contains(
            code_of(he[x]),
        ),
    decreases he.len() - j,
{
    if j < he.len() {
        lemma_first_out(he, used, v, j + 1);
    }
}

/// The first half-edge out of `v` whose edge is unused.
pub(crate) fn first_unused(he: &[(u32, u32)], codes: &Vec<u64>, used: &HashSet<u64>, v: u32) -> (r: Option<usize>)
    requires
        codes@.len() == he@.len(),
        forall|j: int| 0 <= j < he@.len() ==> #[trigger] codes@[j] == code_of(he@[j]),
    ensures
        match first_out(he@, used@, v, 0) {
            None => r is None,
            Some(j) => r == Some(j as usize),
        },
{
    let mut j: usize = 0;
    while j < he.len()
        invariant
            j <= he@.len(),
            codes@.len() == he@.len(),
            forall|x: int| 0 <= x < he@.len() ==> #[trigger] codes@[x] == code_of(he@[x]),
            first_out(he@, used@, v, 0) == first_out(he@, used@, v, j as int),
        decreases he@.len() - j,
    {
        if he[j].0 == v && !used.contains(&codes[j]) {
            return Some(j);
        }
        j += 1;
    }
    None
}

proof fn lemma_code_in(he: Seq<(u32, u32)>, j: int)
    requires
        0 <= j < he.len(),
    ensures
        edge_codes(he).contains(code_of(he[j])),
{
    let m = he.map_values(|e: (u32, u32)| code_of(e));
    assert(m[j] == code_of(he[j]));
}

/// Walks from `start` (see `walk`), using edges; the path starts at
/// `start`.
#[verifier::loop_isolation(false)]
pub(crate) fn walk_from(he: &[(u32, u32)], codes: &Vec<u64>, used: &mut HashSet<u64>, start: u32, closing: bool, Ghost(fuel): Ghost<nat>) -> (path: Vec<u32>)
    requires
        codes@.len() == he@.len(),
        forall|j: int| 0 <= j < he@.len() ==> #[trigger] codes@[j] == code_of(he@[j]),
        old(used)@.subset_of(edge_codes(he@)),
        fuel > edge_codes(he@).difference(old(used)@).len(),
    ensures
        path@ == seq![start] + walk(he@, old(used)@, start, start, closing, fuel).0,
        final(used)@ == walk(he@, old(used)@, start, start, closing, fuel).1,
        final(used)@.subset_of(edge_codes(he@)),
{
    let ghost k = edge_codes(he@);
    let ghost used0 = used@;
    proof {
        vstd::set_lib::lemma_len_subset(used@, k);
    }
    let mut path: Vec<u32> = vec![start];
    let mut curr = start;
    let ghost mut f = fuel;
    loop
        invariant
            used@.subset_of(k),
            f > k.difference(used@).len(),
            seq![start] + walk(he@, used0, start, start, closing, fuel).0 == path@ + walk(
                he@,
                used@,
                curr,
                start,
                closing,
                f,
            ).0,
            walk(he@, used0, start, start, closing, fuel).1 == walk(he@, used@, curr, start, closing, f).1,
        decreases k.difference(used@).len(),
    {
        match first_unused(he, codes, used, curr) {
            None => {
                assert(walk(he@, used@, curr, start, closing, f) == (Seq::<u32>::empty(), used@));
                break;
            },
            Some(j) => {
                proof {
                    lemma_first_out(he@, used@, curr, 0);
                }
                let nxt = he[j].1;
                let c = codes[j];
                proof {
                    lemma_code_in(he@, j as int);
                    assert(k.finite());
                    k.lemma_set_insert_diff_decreases(used@, c);
                }
                let ghost before = path@;
                let ghost used_before = used@;
                let ghost c0 = curr;
                let ghost f0 = f;
                used.insert(c);
                path.push(nxt);
                curr = nxt;
                proof {
                    assert(f0 > 0);
                    f = (f0 - 1) as nat;
                    assert(used@ == used_before.insert(code_of(he@[j as int])));
                    if !(closing && nxt == start) {
                        assert(walk(he@, used_before, c0, start, closing, f0) == (
                            seq![nxt] + walk(he@, used@, nxt, start, closing, f).0,
                            walk(he@, used@, nxt, start, closing, f).1,
                        ));
                        assert(path@ + walk(he@, used@, curr, start, closing, f).0 =~= before + (seq![nxt]
                            + walk(he@, used@, curr, start, closing, f).0));
                    } else {
                        assert(walk(he@, used_before, c0, start, closing, f0) == (seq![nxt], used@));
                        assert(path@ =~= before + seq![nxt]);
                    }
                }
                if closing && nxt == start {
                    break;
                }
            },
        }
    }
    proof {
        assert(path@ =~= path@ + Seq::<u32>::empty());
    }
    path
}

/// The open starts in increasing order.
fn collect_open_starts(he: &[(u32, u32)]) -> (r: Vec<usize>)
    ensures
        r@ == open_starts(he@),
{
    let mut targets: HashSet<u32> = HashSet::new();
    let mut k: usize = 0;
    while k < he.len()
        invariant
            k <= he@.len(),
            forall|u: u32| #[trigger] targets@.contains(u) <==> exists|x: int| 0 <= x < k && he@[x].1 == u,
        decreases he@.len() - k,
    {
        targets.insert(he[k].1);
        k += 1;
    }
    let mut starts: Vec<usize> = Vec::new();
    let mut j: usize = 0;
    while j < he.len()
        invariant
            j <= he@.len(),
            increasing(starts@),
            forall|u: u32| #[trigger] targets@.contains(u) <==> exists|x: int| 0 <= x < he@.len() && he@[x].1 == u,
            forall|u: usize| #[trigger] starts@.contains(u) <==> (exists|x: int| 0 <= x < j && he@[x].0 == u)
                && is_open_start(he@, u as int),
        decreases he@.len() - j,
    {
        let u = he[j].0;
        if !targets.contains(&u) {
            let ghost old_starts = starts@;
            starts = insert_sorted(&starts, u as usize);
            proof {
                assert forall|w: usize| #[trigger] starts@.contains(w) <==> (exists|x: int| 0 <= x < j + 1 && he@[x].0 == w)
                    && is_open_start(he@, w as int) by {
                    assert(starts@.to_set().contains(w) == old_starts.to_set().insert(u as usize).contains(w));
                    if w == u as usize {
                        assert(he@[j as int].0 == w);
                    }
                }
            }
        } else {
            proof {
                assert forall|w: usize| #[trigger] starts@.contains(w) <==> (exists|x: int| 0 <= x < j + 1 && he@[x].0 == w)
                    && is_open_start(he@, w as int) by {
                    if (exists|x: int| 0 <= x < j + 1 && he@[x].0 == w) && is_open_start(he@, w as int) {
                        let x = choose|x: int| 0 <= x < j + 1 && he@[x].0 == w;
                        if x == j {
                            let y = choose|y: int| 0 <= y < he@.len() && he@[y].1 == u;
                            assert(false);
                        }
                    }
                }
            }
        }
        j += 1;
    }
    proof {
        let o = open_starts(he@);
        assert(forall|u: usize| #[trigger] starts@.contains(u) <==> is_open_start(he@, u as int));
        assert(increasing(o) && forall|u: usize| #[trigger] o.contains(u) <==> is_open_start(he@, u as int));
        lemma_increasing_unique(starts@, o);
    }
    starts
}

/// Traces the chains of a set of half-edges (see `traced_chains`).
pub fn trace_all_chains(half_edges: &[(u32, u32)]) -> (chains: Vec<Vec<u32>>)
    ensures
        chains.deep_view() == traced_chains(half_edges@),
{
    let ghost he = half_edges@;
    let ghost k = edge_codes(he);
    let ghost fuel = (he.len() + 1) as nat;
    let mut codes: Vec<u64> = Vec::new();
    let mut x: usize = 0;
    while x < half_edges.len()
        invariant
            x <= he.len(),
            he == half_edges@,
            codes@.len() == x,
            forall|j: int| 0 <= j < x ==> #[trigger] codes@[j] == code_of(he[j]),
        decreases he.len() - x,
    {
        let e = half_edges[x];
        codes.push(super::boundary::key_code_exec(e.0, e.1));
        x += 1;
    }
    proof {
        he.map_values(|e: (u32, u32)| code_of(e)).lemma_cardinality_of_set();
    }
    let starts = collect_open_starts(half_edges);
    let ghost ss = starts@;
    let mut used: HashSet<u64> = HashSet::new();
    let mut chains: Vec<Vec<u32>> = Vec::new();
    let mut i: usize = 0;
    while i < starts.len()
        invariant
            he == half_edges@,
            ss == starts@,
            ss == open_starts(he),
            i <= ss.len(),
            k == edge_codes(he),
            k.len() <= he.len(),
            fuel == he.len() + 1,
            codes@.len() == he.len(),
            forall|j: int| 0 <= j < he.len() ==> #[trigger] codes@[j] == code_of(he[j]),
            used@.subset_of(k),
            (chains.deep_view(), used@) == open_chains(he, ss, i as int),
        decreases ss.len() - i,
    {
        proof {
            assert(ss.contains(ss[i as int]));
            let w = choose|w: int| 0 <= w < he.len() && he[w].0 == ss[i as int];
        }
        let s = starts[i] as u32;
        proof {
            vstd::set_lib::lemma_len_subset(k.difference(used@), k);
        }
        let path = walk_from(half_edges, &codes, &mut used, s, false, Ghost(fuel));
        let ghost old_chains = chains.deep_view();
        let ghost pv = path@;
        assert(path.deep_view() =~= pv);
        if path.len() >= 2 {
            chains.push(path);
            proof {
                assert(chains.deep_view() =~= old_chains.push(pv));
            }
        }
        i += 1;
    }
    let ghost init = open_chains(he, ss, ss.len() as int);
    let mut h: usize = 0;
    while h < half_edges.len()
        invariant
            he == half_edges@,
            h <= he.len(),
            k == edge_codes(he),
            k.len() <= he.len(),
            fuel == he.len() + 1,
            codes@.len() == he.len(),
            forall|j: int| 0 <= j < he.len() ==> #[trigger] codes@[j] == code_of(he[j]),
            used@.subset_of(k),
            (chains.deep_view(), used@) == cycle_chains(he, h as int, init),
        decreases he.len() - h,
    {
        let u = half_edges[h].0;
        proof {
            vstd::set_lib::lemma_len_subset(k.difference(used@), k);
        }
        let mut path = walk_from(half_edges, &codes, &mut used, u, true, Ghost(fuel));
        let ghost raw = path@;
        if path.len() >= 3 && path[0] == path[path.len() - 1] {
            path.pop();
        }
        assert(path@ == opened(raw));
        let ghost old_chains = chains.deep_view();
        let ghost pv = path@;
        assert(path.deep_view() =~= pv);
        if path.len() >= 2 {
            chains.push(path);
            proof {
                assert(chains.deep_view() =~= old_chains.push(pv));
            }
        }
        h += 1;
    }
    chains
}

// ---------------------------------------------------------------------------
// Selected clusters
// ---------------------------------------------------------------------------

/// Neighbour `e` of triangle `t` when it is selected (and `t` is).
pub open spec fn sel_pick(nbrs: Seq<[u32; 3]>, sel: Seq<u8>, t: int, e: int) -> Seq<u32> {
    let nb = nbrs[t][e];
    if nb != u32::MAX && sel[nb as int] > 0 {
        seq![nb]
    } else {
        Seq::empty()
    }
}

/// The selected neighbours of a selected triangle, across its sides 0, 1, 2.
pub open spec fn sel_row(nbrs: Seq<[u32; 3]>, sel: Seq<u8>, t: int) -> Seq<u32> {
    if sel[t] == 0 {
        Seq::empty()
    } else {
        sel_pick(nbrs, sel, t, 0) + sel_pick(nbrs, sel, t, 1) + sel_pick(nbrs, sel, t, 2)
    }
}

pub open spec fn sel_rows(nbrs: Seq<[u32; 3]>, sel: Seq<u8>) -> Seq<Seq<u32>> {
    Seq::new(nbrs.len(), |t: int| sel_row(nbrs, sel, t))
}

/// The clusters of selected triangles: connected across the dual graph,
/// found breadth first from the lowest triangle not yet reached.
pub open spec fn selection_clusters(nbrs: Seq<[u32; 3]>, sel: Seq<u8>) -> Seq<Seq<u32>> {
    shells(sel_rows(nbrs, sel)).filter(|c: Seq<u32>| sel[c[0] as int] > 0)
}

/// Every neighbour is a triangle or the open mark.
pub open spec fn nbrs_ok(nbrs: Seq<[u32; 3]>) -> bool {
    forall|t: int, e: int| 0 <= t < nbrs.len() && 0 <= e < 3 ==> (#[trigger] nbrs[t][e]) == u32::MAX || nbrs[t][e]
        < nbrs.len()
}

/// The clusters of the selected triangles.
pub fn find_selection_clusters(topo: &MeshTopology, sel: &[u8]) -> (cs: Vec<Vec<u32>>)
    requires
        sel@.len() == topo.neighbors@.len(),
        topo.neighbors@.len() <= u32::MAX,
        nbrs_ok(topo.neighbors@),
    ensures
        cs.deep_view() == selection_clusters(topo.neighbors@, sel@),
{
    let ghost nb = topo.neighbors@;
    let nt = topo.neighbors.len();
    let mut rows: Vec<Vec<u32>> = Vec::new();
    let mut t: usize = 0;
    while t < nt
        invariant
            nb == topo.neighbors@,
            nt == nb.len(),
            sel@.len() == nt,
            nbrs_ok(nb),
            t <= nt,
            rows@.len() == t,
            forall|u: int| 0 <= u < t ==> (#[trigger] rows@[u])@ == sel_row(nb, sel@, u),
            forall|u: int, k: int| 0 <= u < t && 0 <= k < rows@[u]@.len() ==> #[trigger] rows@[u]@[k] < nt,
        decreases nt - t,
    {
        let mut row: Vec<u32> = Vec::new();
        if sel[t] > 0 {
            let r = topo.neighbors[t];
            let mut e: usize = 0;
            while e < 3
                invariant
                    nb == topo.neighbors@,
                    nt == nb.len(),
                    sel@.len() == nt,
                    nbrs_ok(nb),
                    t < nt,
                    r == nb[t as int],
                    e <= 3,
                    row@ == if e == 0 {
                        Seq::<u32>::empty()
                    } else if e == 1 {
                        sel_pick(nb, sel@, t as int, 0)
                    } else if e == 2 {
                        sel_pick(nb, sel@, t as int, 0) + sel_pick(nb, sel@, t as int, 1)
                    } else {
                        sel_pick(nb, sel@, t as int, 0) + sel_pick(nb, sel@, t as int, 1) + sel_pick(nb, sel@, t as int, 2)
                    },
                    forall|k: int| 0 <= k < row@.len() ==> #[trigger] row@[k] < nt,
                decreases 3 - e,
            {
                let x = r[e];
                assert(x == nb[t as int][e as int]);
                if x != u32::MAX && sel[x as usize] > 0 {
                    row.push(x);
                }
                e += 1;
                assert(row@ =~= if e == 1 {
                    sel_pick(nb, sel@, t as int, 0)
                } else if e == 2 {
                    sel_pick(nb, sel@, t as int, 0) + sel_pick(nb, sel@, t as int, 1)
                } else {
                    sel_pick(nb, sel@, t as int, 0) + sel_pick(nb, sel@, t as int, 1) + sel_pick(nb, sel@, t as int, 2)
                });
            }
        }
        rows.push(row);
        t += 1;
    }
    proof {
        assert(lists(rows@) =~= sel_rows(nb, sel@));
        assert forall|u: int, k: int| 0 <= u < lists(rows@).len() && 0 <= k < lists(rows@)[u].len() implies #[trigger] lists(
            rows@,
        )[u][k] < lists(rows@).len() by {
            assert(lists(rows@)[u] == rows@[u]@);
        }
    }
    let all = find_shells(&rows);
    let ghost av = all.deep_view();
    let ghost pred = |c: Seq<u32>| sel@[c[0] as int] > 0;
    let mut cs: Vec<Vec<u32>> = Vec::new();
    let mut q: usize = 0;
    while q < all.len()
        invariant
            av == all.deep_view(),
            av == shells(sel_rows(nb, sel@)),
            sel@.len() == nt,
            nt == rows@.len(),
            forall|c: int| 0 <= c < all@.len() ==> 1 <= (#[trigger] all@[c])@.len() <= nt,
            forall|c: int, k: int| 0 <= c < all@.len() && 0 <= k < all@[c]@.len() ==> #[trigger] all@[c]@[k] < nt,
            pred == (|c: Seq<u32>| sel@[c[0] as int] > 0),
            q <= all@.len(),
            cs.deep_view() == av.take(q as int).filter(pred),
        decreases all@.len() - q,
    {
        let ghost tq = av.take(q as int);
        assert(av.take(q + 1) =~= tq.push(av[q as int]));
        assert(all@[q as int]@ == av[q as int]);
        proof {
            Seq::filter_distributes_over_add(tq, seq![av[q as int]], pred);
            assert(tq + seq![av[q as int]] =~= tq.push(av[q as int]));
        }
        let first = all[q][0];
        if sel[first as usize] > 0 {
            let c = all[q].clone();
            assert(c@ == av[q as int]);
            let ghost before = cs.deep_view();
            let ghost old_cs = cs@;
            assert(c.deep_view() =~= c@);
            cs.push(c);
            proof {
                assert forall|i: int| 0 <= i < before.len() implies #[trigger] cs.deep_view()[i] == before[i] by {
                    assert(cs@[i] == old_cs[i]);
                }
                assert(seq![av[q as int]].filter(pred) =~= seq![av[q as int]]) by {
                    reveal_with_fuel(Seq::filter, 2);
                }
                assert(cs.deep_view() =~= before.push(av[q as int]));
            }
        } else {
            assert(seq![av[q as int]].filter(pred) =~= Seq::<Seq<u32>>::empty()) by {
                reveal_with_fuel(Seq::filter, 2);
            }
        }
        q += 1;
        assert(cs.deep_view() =~= av.take(q as int).filter(pred));
    }
    assert(av.take(av.len() as int) =~= av);
    cs
}

/// Why two clusters to bridge could not be had.
#[derive(Clone, Copy, Debug, PartialEq, Eq, Structural)]
pub enum BridgeSelectError {
    /// The selection does not have one entry per triangle.
    SizeMismatch,
    /// Fewer than two clusters: how many there are.
    TooFew(usize),
    /// More than two clusters: how many there are.
    TooMany(usize),
    /// A cluster without boundary sides.
    NoBoundary,
    /// A cluster whose boundary gives no chain.
    NoChains,
}

/// The two clusters of a selection to be bridged.
pub open spec fn bridge_pair(nbrs: Seq<[u32; 3]>, sel: Seq<u8>) -> Result<(Seq<u32>, Seq<u32>), BridgeSelectError> {
    let cs = selection_clusters(nbrs, sel);
    if sel.len() != nbrs.len() {
        Err(BridgeSelectError::SizeMismatch)
    } else if cs.len() < 2 {
        Err(BridgeSelectError::TooFew(cs.len() as usize))
    } else if cs.len() > 2 {
        Err(BridgeSelectError::TooMany(cs.len() as usize))
    } else {
        Ok((cs[0], cs[1]))
    }
}

/// The two clusters of the selected triangles, when there are exactly two.
pub fn select_bridge_clusters(topo: &MeshTopology, sel: &[u8]) -> (r: Result<(Vec<u32>, Vec<u32>), BridgeSelectError>)
    requires
        topo.neighbors@.len() <= u32::MAX,
        nbrs_ok(topo.neighbors@),
    ensures
        match bridge_pair(topo.neighbors@, sel@) {
            Ok((a, b)) => r matches Ok((x, y)) && x@ == a && y@ == b,
            Err(e) => r == Err::<(Vec<u32>, Vec<u32>), BridgeSelectError>(e),
        },
{
    if sel.len() != topo.neighbors.len() {
        return Err(BridgeSelectError::SizeMismatch);
    }
    let cs = find_selection_clusters(topo, sel);
    let ghost cv = cs.deep_view();
    if cs.len() < 2 {
        return Err(BridgeSelectError::TooFew(cs.len()));
    }
    if cs.len() > 2 {
        return Err(BridgeSelectError::TooMany(cs.len()));
    }
    let a = cs[0].clone();
    let b = cs[1].clone();
    assert(a@ == cv[0] && b@ == cv[1]);
    Ok((a, b))
}

/// Side `e` of triangle `t` as a directed edge, when it is open (`open`),
/// or faces a triangle outside the cluster `c` (`!open`).
pub open spec fn side_pick(ind: Seq<u32>, nbrs: Seq<[u32; 3]>, c: Seq<u32>, open: bool, t: int, e: int) -> Seq<(u32, u32)> {
    let nb = nbrs[t][e];
    if (open && nb == u32::MAX) || (!open && nb != u32::MAX && !c.contains(nb)) {
        seq![tri_edge(ind, t, e)]
    } else {
        Seq::empty()
    }
}

/// The sides of the first `k` triangles of cluster `c` that are open
/// (`open`), or that face a triangle outside the cluster (`!open`), as
/// directed edges, in order.
pub open spec fn cluster_sides(ind: Seq<u32>, nbrs: Seq<[u32; 3]>, c: Seq<u32>, open: bool, k: int) -> Seq<(u32, u32)>
    decreases k,
{
    if k <= 0 {
        Seq::empty()
    } else {
        let t = c[k - 1] as int;
        cluster_sides(ind, nbrs, c, open, k - 1) + side_pick(ind, nbrs, c, open, t, 0) + side_pick(ind, nbrs, c, open, t, 1)
            + side_pick(ind, nbrs, c, open, t, 2)
    }
}

/// The boundary chains of a cluster: of its open sides when it has any,
/// else of the sides it shares with the rest of the mesh; and which of the
/// two it is.
pub open spec fn cluster_chains(ind: Seq<u32>, nbrs: Seq<[u32; 3]>, c: Seq<u32>) -> Result<(bool, Seq<Seq<u32>>), BridgeSelectError> {
    let o = cluster_sides(ind, nbrs, c, true, c.len() as int);
    let x = cluster_sides(ind, nbrs, c, false, c.len() as int);
    if o.len() == 0 && x.len() == 0 {
        Err(BridgeSelectError::NoBoundary)
    } else {
        let he = if o.len() > 0 {
            o
        } else {
            x
        };
        let chains = traced_chains(he);
        if chains.len() == 0 {
            Err(BridgeSelectError::NoChains)
        } else {
            Ok((o.len() > 0, chains))
        }
    }
}

/// Appends side `e` of triangle `t` to the open or the outward list.
fn sort_side(
    indices: &[u32],
    row: [u32; 3],
    t: usize,
    e: usize,
    inside: &Vec<bool>,
    open: &mut Vec<(u32, u32)>,
    other: &mut Vec<(u32, u32)>,
    Ghost(nbrs): Ghost<Seq<[u32; 3]>>,
    Ghost(c): Ghost<Seq<u32>>,
)
    requires
        t < nbrs.len(),
        e < 3,
        3 * t + 2 < indices@.len(),
        row == nbrs[t as int],
        nbrs.len() == inside@.len(),
        forall|u: int| 0 <= u < inside@.len() ==> #[trigger] inside@[u] == c.contains(u as u32),
        forall|u: int, f: int| 0 <= u < nbrs.len() && 0 <= f < 3 ==> (#[trigger] nbrs[u][f]) == u32::MAX || nbrs[u][f] < nbrs.len(),
    ensures
        final(open)@ == old(open)@ + side_pick(indices@, nbrs, c, true, t as int, e as int),
        final(other)@ == old(other)@ + side_pick(indices@, nbrs, c, false, t as int, e as int),
{
    let nb = row[e];
    let l = indices.len();
    let a = indices[3 * t + e];
    let b = indices[3 * t + (e + 1) % 3];
    assert((a, b) == tri_edge(indices@, t as int, e as int));
    if nb == u32::MAX {
        open.push((a, b));
        assert(open@ =~= old(open)@ + side_pick(indices@, nbrs, c, true, t as int, e as int));
        assert(other@ =~= old(other)@ + side_pick(indices@, nbrs, c, false, t as int, e as int));
    } else if !inside[nb as usize] {
        other.push((a, b));
        assert(open@ =~= old(open)@ + side_pick(indices@, nbrs, c, true, t as int, e as int));
        assert(other@ =~= old(other)@ + side_pick(indices@, nbrs, c, false, t as int, e as int));
    } else {
        assert(open@ =~= old(open)@ + side_pick(indices@, nbrs, c, true, t as int, e as int));
        assert(other@ =~= old(other)@ + side_pick(indices@, nbrs, c, false, t as int, e as int));
    }
}

/// The boundary chains of cluster `c` of the triangles `indices`.
pub fn cluster_boundary_chains(indices: &[u32], topo: &MeshTopology, c: &[u32]) -> (r: Result<(bool, Vec<Vec<u32>>), BridgeSelectError>)
    requires
        topo.neighbors@.len() == indices@.len() / 3,
        topo.neighbors@.len() <= u32::MAX,
        nbrs_ok(topo.neighbors@),
        forall|k: int| 0 <= k < c@.len() ==> (#[trigger] c@[k]) < topo.neighbors@.len(),
    ensures
        match cluster_chains(indices@, topo.neighbors@, c@) {
            Ok((u, ch)) => r matches Ok((v, x)) && v == u && x.deep_view() == ch,
            Err(e) => r matches Err(f) && f == e,
        },
{
    let ghost nb = topo.neighbors@;
    let ghost ind = indices@;
    let nt = topo.neighbors.len();
    let len = indices.len();
    let mut inside: Vec<bool> = Vec::new();
    let mut z: usize = 0;
    while z < nt
        invariant
            z <= nt,
            inside@ == Seq::new(z as nat, |i: int| false),
        decreases nt - z,
    {
        inside.push(false);
        z += 1;
        assert(inside@ =~= Seq::new(z as nat, |i: int| false));
    }
    let mut k: usize = 0;
    while k < c.len()
        invariant
            inside@.len() == nt,
            nt == nb.len(),
            nt <= u32::MAX,
            forall|q: int| 0 <= q < c@.len() ==> (#[trigger] c@[q]) < nt,
            k <= c@.len(),
            forall|u: int| 0 <= u < nt ==> #[trigger] inside@[u] == c@.take(k as int).contains(u as u32),
        decreases c@.len() - k,
    {
        let t = c[k];
        inside.set(t as usize, true);
        proof {
            let tk = c@.take(k as int);
            let tk1 = c@.take(k + 1);
            assert(tk1 =~= tk.push(t));
            assert(tk1[k as int] == t);
            assert forall|u: int| 0 <= u < nt implies #[trigger] inside@[u] == tk1.contains(u as u32) by {
                if u == t as int {
                    assert(tk1.contains(u as u32));
                } else {
                    assert(u as u32 != t);
                    if tk.contains(u as u32) {
                        let i = choose|i: int| 0 <= i < tk.len() && tk[i] == u as u32;
                        assert(tk1[i] == u as u32);
                    }
                    if tk1.contains(u as u32) {
                        let i = choose|i: int| 0 <= i < tk1.len() && tk1[i] == u as u32;
                        assert(i != k);
                        assert(tk[i] == u as u32);
                    }
                }
            }
        }
        k += 1;
    }
    assert(c@.take(c@.len() as int) =~= c@);
    let mut open: Vec<(u32, u32)> = Vec::new();
    let mut other: Vec<(u32, u32)> = Vec::new();
    let mut k: usize = 0;
    while k < c.len()
        invariant
            ind == indices@,
            len == ind.len(),
            nb == topo.neighbors@,
            nt == nb.len(),
            nt == ind.len() / 3,
            nbrs_ok(nb),
            inside@.len() == nt,
            forall|q: int| 0 <= q < c@.len() ==> (#[trigger] c@[q]) < nt,
            forall|u: int| 0 <= u < nt ==> #[trigger] inside@[u] == c@.contains(u as u32),
            k <= c@.len(),
            open@ == cluster_sides(ind, nb, c@, true, k as int),
            other@ == cluster_sides(ind, nb, c@, false, k as int),
        decreases c@.len() - k,
    {
        let t = c[k] as usize;
        assert(3 * t + 2 < len) by (nonlinear_arith)
            requires
                t < nt,
                nt == len / 3,
        ;
        let row = topo.neighbors[t];
        sort_side(indices, row, t, 0, &inside, &mut open, &mut other, Ghost(nb), Ghost(c@));
        sort_side(indices, row, t, 1, &inside, &mut open, &mut other, Ghost(nb), Ghost(c@));
        sort_side(indices, row, t, 2, &inside, &mut open, &mut other, Ghost(nb), Ghost(c@));
        k += 1;
    }
    let use_open = open.len() > 0;
    if !use_open && other.len() == 0 {
        return Err(BridgeSelectError::NoBoundary);
    }
    let chains = if use_open {
        trace_all_chains(&open)
    } else {
        trace_all_chains(&other)
    };
    if chains.len() == 0 {
        return Err(BridgeSelectError::NoChains);
    }
    Ok((use_open, chains))
}

// ---------------------------------------------------------------------------
// The quad grid of a bridge
// ---------------------------------------------------------------------------

/// The two triangles of the grid cell at row `r`, column `w` of a grid
/// `width` vertices wide numbered row by row from `base`; wound the other
/// way round when `flip`.
pub open spec fn grid_cell(base: int, width: int, flip: bool, r: int, w: int) -> Seq<u32> {
    let i00 = (base + r * width + w) as u32;
    let i01 = (base + r * width + w + 1) as u32;
    let i10 = (base + (r + 1) * width + w) as u32;
    let i11 = (base + (r + 1) * width + w + 1) as u32;
    if flip {
        seq![i00, i10, i11, i00, i11, i01]
    } else {
        seq![i00, i11, i10, i00, i01, i11]
    }
}

/// The triangles of the first `w` cells of row `r`.
pub open spec fn grid_row(base: int, width: int, flip: bool, r: int, w: int) -> Seq<u32>
    decreases w,
{
    if w <= 0 {
        Seq::empty()
    } else {
        grid_row(base, width, flip, r, w - 1) + grid_cell(base, width, flip, r, w - 1)
    }
}

/// The triangles of the first `r` rows of cells.
pub open spec fn grid_rows(base: int, width: int, flip: bool, r: int) -> Seq<u32>
    decreases r,
{
    if r <= 0 {
        Seq::empty()
    } else {
        grid_rows(base, width, flip, r - 1) + grid_row(base, width, flip, r - 1, width - 1)
    }
}

/// The triangle indices of a grid of `rows` by `width` vertices numbered
/// row by row from `base`: two triangles for each cell between
/// neighbouring rows and columns, row after row, left to right.
pub fn grid_triangles(rows: usize, width: usize, base: u32, flip: bool) -> (r: Vec<u32>)
    requires
        base + rows * width <= u32::MAX + 1,
    ensures
        r@ == grid_rows(base as int, width as int, flip, rows - 1),
{
    let mut out: Vec<u32> = Vec::new();
    if rows == 0 {
        return out;
    }
    let mut row_start: u64 = base as u64;
    let mut r: usize = 0;
    while r + 1 < rows
        invariant
            r + 1 <= rows,
            base + rows * width <= u32::MAX + 1,
            row_start == base + r * width,
            out@ == grid_rows(base as int, width as int, flip, r as int),
        decreases rows - r,
    {
        assert(base + (r + 2) * width <= base + rows * width) by (nonlinear_arith)
            requires
                r + 2 <= rows,
        ;
        assert((r + 2) * width == r * width + 2 * width) by (nonlinear_arith);
        let ghost before = out@;
        let mut w: usize = 0;
        while w + 1 < width
            invariant
                r + 2 <= rows,
                w + 1 <= width || width == 0,
                w <= width,
                row_start == base + r * width,
                row_start + 2 * width <= u32::MAX + 1,
                (r + 2) * width == r * width + 2 * width,
                out@ == before + grid_row(base as int, width as int, flip, r as int, w as int),
            decreases width - w,
        {
            let i00 = (row_start + w as u64) as u32;
            let i01 = (row_start + w as u64 + 1) as u32;
            let i10 = (row_start + width as u64 + w as u64) as u32;
            let i11 = (row_start + width as u64 + w as u64 + 1) as u32;
            assert((r + 1) * width == r * width + width) by (nonlinear_arith);
            let ghost cell = grid_cell(base as int, width as int, flip, r as int, w as int);
            if flip {
                out.push(i00);
                out.push(i10);
                out.push(i11);
                out.push(i00);
                out.push(i11);
                out.push(i01);
            } else {
                out.push(i00);
                out.push(i11);
                out.push(i10);
                out.push(i00);
                out.push(i01);
                out.push(i11);
            }
            assert(out@ =~= before + grid_row(base as int, width as int, flip, r as int, w + 1));
            w += 1;
        }
        assert(out@ =~= grid_rows(base as int, width as int, flip, r + 1));
        assert((r + 1) * width == r * width + width) by (nonlinear_arith);
        row_start = row_start + width as u64;
        r += 1;
    }
    out
}

} // verus!
