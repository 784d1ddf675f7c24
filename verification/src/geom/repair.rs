//! Diagnosis of a triangle mesh: its edges, shells, and vertices whose
//! triangles do not form a single fan.
use vstd::prelude::*;
use crate::graph::{closed, connected, count_components, flood, leaders, lemma_same_leaders, lists, symmetric};
use crate::sorting::{key_count, lemma_block_count, lemma_perm_filter_len, par_sort_by_key, sorted_by_key, with_key};
use super::boundary::{collect_edges, edge_records, EdgeRecord};
use super::hole_detect::{hole_loops, trace_hole_loops};
use std::collections::HashSet;

verus! {

broadcast use {
    vstd::seq_lib::group_to_multiset_ensures,
    vstd::multiset::group_multiset_axioms,
    vstd::std_specs::hash::group_hash_axioms,
};

// ---------------------------------------------------------------------------
// Non-manifold vertices
// ---------------------------------------------------------------------------

/// The corners (positions in `ind`) among the first `k` that hold vertex
/// `v`, in order.
pub open spec fn corners_of(ind: Seq<u32>, v: int, k: int) -> Seq<u32>
    decreases k,
{
    if k <= 0 {
        seq![]
    } else {
        corners_of(ind, v, k - 1) + if ind[k - 1] == v {
            seq![(k - 1) as u32]
        } else {
            seq![]
        }
    }
}

/// The triangles of corners `c1` and `c2` share a vertex other than `v`.
pub open spec fn share(ind: Seq<u32>, c1: int, c2: int, v: int) -> bool {
    exists|i: int, j: int|
        0 <= i < 3 && 0 <= j < 3 && #[trigger] ind[3 * (c1 / 3) + i] == #[trigger] ind[3 * (c2 / 3) + j]
            && ind[3 * (c1 / 3) + i] != v
}

/// Row `a` of the fan graph of the corners `cs` of `v`: the other corners
/// (by position in `cs`, first `m`) whose triangles share a vertex with
/// that of corner `a`.
pub open spec fn fan_row(ind: Seq<u32>, cs: Seq<u32>, v: int, a: int, m: int) -> Seq<u32>
    decreases m,
{
    if m <= 0 {
        seq![]
    } else {
        fan_row(ind, cs, v, a, m - 1) + if m - 1 != a && share(ind, cs[a] as int, cs[m - 1] as int, v) {
            seq![(m - 1) as u32]
        } else {
            seq![]
        }
    }
}

/// The fan graph of vertex `v`: its corners, linked when their triangles
/// share another vertex.
pub open spec fn fan_graph(ind: Seq<u32>, v: int) -> Seq<Seq<u32>> {
    let cs = corners_of(ind, v, ind.len() as int);
    Seq::new(cs.len(), |a: int| fan_row(ind, cs, v, a, cs.len() as int))
}

/// Vertex `v` is non-manifold: it has at least two corners, and not all
/// of them are connected to the first through shared vertices.
pub open spec fn non_manifold_vertex(ind: Seq<u32>, v: int) -> bool {
    let g = fan_graph(ind, v);
    g.len() >= 2 && exists|b: int| 0 <= b < g.len() && !connected(g, 0, b)
}

/// How many of the first `k` vertices are non-manifold.
pub open spec fn non_manifold_count(ind: Seq<u32>, k: int) -> nat
    decreases k,
{
    if k <= 0 {
        0
    } else {
        non_manifold_count(ind, k - 1) + if non_manifold_vertex(ind, k - 1) {
            1nat
        } else {
            0nat
        }
    }
}

proof fn lemma_fan_row_bound(ind: Seq<u32>, cs: Seq<u32>, v: int, a: int, m: int)
    requires
        0 <= m <= u32::MAX + 1,
    ensures
        forall|x: int| 0 <= x < fan_row(ind, cs, v, a, m).len() ==> (#[trigger] fan_row(ind, cs, v, a, m)[x]) < m,
        forall|b: u32| #[trigger] fan_row(ind, cs, v, a, m).contains(b) <==> (b < m && b != a && share(
            ind,
            cs[a] as int,
            cs[b as int] as int,
            v,
        )),
    decreases m,
{
    if m > 0 {
        lemma_fan_row_bound(ind, cs, v, a, m - 1);
        let r = fan_row(ind, cs, v, a, m);
        let r0 = fan_row(ind, cs, v, a, m - 1);
        let cond = m - 1 != a && share(ind, cs[a] as int, cs[m - 1] as int, v);
        assert(r == r0 + if cond {
            seq![(m - 1) as u32]
        } else {
            Seq::<u32>::empty()
        });
        assert forall|b: u32| #[trigger] r.contains(b) <==> (b < m && b != a && share(ind, cs[a] as int, cs[b as int] as int, v)) by {
            if r.contains(b) {
                let x = choose|x: int| 0 <= x < r.len() && r[x] == b;
                if x < r0.len() {
                    assert(r0[x] == b);
                    assert(r0.contains(b));
                } else {
                    assert(cond);
                    assert(b == m - 1);
                }
            }
            if b < m && b != a && share(ind, cs[a] as int, cs[b as int] as int, v) {
                if b < m - 1 {
                    assert(r0.contains(b));
                    let x = choose|x: int| 0 <= x < r0.len() && r0[x] == b;
                    assert(r[x] == b);
                } else {
                    assert(r[r.len() - 1] == b);
                }
            }
        }
    }
}

proof fn lemma_share_sym(ind: Seq<u32>, c1: int, c2: int, v: int)
    requires
        share(ind, c1, c2, v),
    ensures
        share(ind, c2, c1, v),
{
    let (i, j) = choose|i: int, j: int|
        0 <= i < 3 && 0 <= j < 3 && #[trigger] ind[3 * (c1 / 3) + i] == #[trigger] ind[3 * (c2 / 3) + j]
            && ind[3 * (c1 / 3) + i] != v;
    assert(ind[3 * (c2 / 3) + j] == ind[3 * (c1 / 3) + i]);
}

/// The fan graph is symmetric.
proof fn lemma_fan_symmetric(ind: Seq<u32>, v: int)
    requires
        ind.len() <= u32::MAX,
    ensures
        symmetric(fan_graph(ind, v)),
{
    let cs = corners_of(ind, v, ind.len() as int);
    let g = fan_graph(ind, v);
    lemma_corners_len(ind, v, ind.len() as int);
    assert forall|a: int, j: int| 0 <= a < g.len() && 0 <= j < g[a].len() implies (#[trigger] g[a][j]) < g.len()
        && g[g[a][j] as int].contains(a as u32) by {
        lemma_fan_row_bound(ind, cs, v, a, cs.len() as int);
        let b = g[a][j];
        assert(g[a].contains(b));
        lemma_share_sym(ind, cs[a] as int, cs[b as int] as int, v);
        lemma_fan_row_bound(ind, cs, v, b as int, cs.len() as int);
    }
}

proof fn lemma_corners_len(ind: Seq<u32>, v: int, k: int)
    requires
        0 <= k <= u32::MAX + 1,
    ensures
        corners_of(ind, v, k).len() <= k,
        forall|x: int| 0 <= x < corners_of(ind, v, k).len() ==> (#[trigger] corners_of(ind, v, k)[x]) < k
            && ind[corners_of(ind, v, k)[x] as int] == v,
    decreases k,
{
    if k > 0 {
        lemma_corners_len(ind, v, k - 1);
        let c = corners_of(ind, v, k);
        let c0 = corners_of(ind, v, k - 1);
        let cond = ind[k - 1] == v;
        assert(c == c0 + if cond {
            seq![(k - 1) as u32]
        } else {
            Seq::<u32>::empty()
        });
        assert forall|x: int| 0 <= x < c.len() implies (#[trigger] c[x]) < k && ind[c[x] as int] == v by {
            if x < c0.len() {
                assert(c[x] == c0[x]);
            } else {
                assert(cond);
                assert(c[x] == (k - 1) as u32);
            }
        }
    }
}

/// `l` with `x` appended, as a new list.
pub(crate) fn appended(l: &Vec<u32>, x: u32) -> (r: Vec<u32>)
    ensures
        r@ == l@.push(x),
{
    let mut r: Vec<u32> = Vec::new();
    let mut i: usize = 0;
    while i < l.len()
        invariant
            i <= l@.len(),
            r@ == l@.take(i as int),
        decreases l@.len() - i,
    {
        r.push(l[i]);
        i += 1;
        assert(r@ =~= l@.take(i as int));
    }
    assert(l@.take(l@.len() as int) =~= l@);
    r.push(x);
    r
}

/// The corners of every vertex.
fn corner_lists(indices: &[u32], nv: usize) -> (inc: Vec<Vec<u32>>)
    requires
        indices@.len() <= u32::MAX,
        forall|k: int| 0 <= k < indices@.len() ==> (#[trigger] indices@[k]) < nv,
    ensures
        inc@.len() == nv,
        forall|v: int| 0 <= v < nv ==> (#[trigger] inc@[v])@ == corners_of(indices@, v, indices@.len() as int),
{
    let mut inc: Vec<Vec<u32>> = Vec::new();
    let mut v: usize = 0;
    while v < nv
        invariant
            v <= nv,
            inc@.len() == v,
            forall|w: int| 0 <= w < v ==> (#[trigger] inc@[w])@ == Seq::<u32>::empty(),
        decreases nv - v,
    {
        inc.push(Vec::new());
        v += 1;
    }
    let mut k: usize = 0;
    while k < indices.len()
        invariant
            k <= indices@.len(),
            indices@.len() <= u32::MAX,
            inc@.len() == nv,
            forall|x: int| 0 <= x < indices@.len() ==> (#[trigger] indices@[x]) < nv,
            forall|w: int| 0 <= w < nv ==> (#[trigger] inc@[w])@ == corners_of(indices@, w, k as int),
        decreases indices@.len() - k,
    {
        let w = indices[k] as usize;
        let l = appended(&inc[w], k as u32);
        inc.set(w, l);
        proof {
            assert forall|u: int| 0 <= u < nv implies (#[trigger] inc@[u])@ == corners_of(indices@, u, k + 1) by {
                if u == w {
                } else {
                    assert(corners_of(indices@, u, k + 1) =~= corners_of(indices@, u, k as int));
                }
            }
        }
        k += 1;
    }
    inc
}

/// Whether the triangles of corners `c1` and `c2` share a vertex other
/// than `v`.
fn shares(indices: &[u32], c1: u32, c2: u32, v: usize) -> (r: bool)
    requires
        (c1 as int) < 3 * (indices@.len() / 3),
        (c2 as int) < 3 * (indices@.len() / 3),
    ensures
        r == share(indices@, c1 as int, c2 as int, v as int),
{
    let t1 = (c1 / 3) as usize;
    let t2 = (c2 / 3) as usize;
    let len = indices.len();
    let ghost ind = indices@;
    assert(3 * t1 + 2 < ind.len() && 3 * t2 + 2 < ind.len()) by (nonlinear_arith)
        requires
            (c1 as int) < 3 * (ind.len() / 3),
            (c2 as int) < 3 * (ind.len() / 3),
            t1 == c1 / 3,
            t2 == c2 / 3,
    ;
    let mut i: usize = 0;
    while i < 3
        invariant
            i <= 3,
            ind == indices@,
            len == ind.len(),
            3 * t1 + 2 < ind.len(),
            3 * t2 + 2 < ind.len(),
            t1 == c1 / 3,
            t2 == c2 / 3,
            forall|x: int, y: int| 0 <= x < i && 0 <= y < 3 ==> !(#[trigger] ind[3 * t1 + x] == #[trigger] ind[3 * t2 + y]
                && ind[3 * t1 + x] != v),
        decreases 3 - i,
    {
        let mut j: usize = 0;
        while j < 3
            invariant
                i < 3,
                j <= 3,
                ind == indices@,
                len == ind.len(),
                t1 == c1 / 3,
                t2 == c2 / 3,
                3 * t1 + 2 < ind.len(),
                3 * t2 + 2 < ind.len(),
                forall|x: int, y: int| 0 <= x < i && 0 <= y < 3 ==> !(#[trigger] ind[3 * t1 + x] == #[trigger] ind[3 * t2 + y]
                    && ind[3 * t1 + x] != v),
                forall|y: int| 0 <= y < j ==> !(#[trigger] ind[3 * t2 + y] == ind[3 * t1 + i] && ind[3 * t1 + i] != v),
            decreases 3 - j,
        {
            let a = indices[3 * t1 + i];
            if a == indices[3 * t2 + j] && a as usize != v {
                assert(ind[3 * (c1 as int / 3) + i] == ind[3 * (c2 as int / 3) + j]);
                return true;
            }
            j += 1;
        }
        i += 1;
    }
    proof {
        if share(ind, c1 as int, c2 as int, v as int) {
            let (x, y) = choose|x: int, y: int|
                0 <= x < 3 && 0 <= y < 3 && #[trigger] ind[3 * (c1 as int / 3) + x] == #[trigger] ind[3 * (c2 as int / 3) + y]
                    && ind[3 * (c1 as int / 3) + x] != v;
            assert(ind[3 * t1 + x] == ind[3 * t2 + y]);
        }
    }
    false
}

/// Whether vertex `v` (corners `cs`) is non-manifold.
fn fan_is_split(indices: &[u32], cs: &Vec<u32>, v: usize) -> (r: bool)
    requires
        indices@.len() <= u32::MAX,
        cs@ == corners_of(indices@, v as int, indices@.len() as int),
        indices@.len() % 3 == 0,
    ensures
        r == non_manifold_vertex(indices@, v as int),
{
    let ghost ind = indices@;
    let ghost g = fan_graph(ind, v as int);
    let n = cs.len();
    proof {
        lemma_corners_len(ind, v as int, ind.len() as int);
        assert(3 * (ind.len() / 3) == ind.len());
    }
    if n < 2 {
        return false;
    }
    let mut adj: Vec<Vec<u32>> = Vec::new();
    let mut a: usize = 0;
    while a < n
        invariant
            a <= n,
            n == cs@.len(),
            n <= u32::MAX,
            ind == indices@,
            cs@ == corners_of(ind, v as int, ind.len() as int),
            forall|x: int| 0 <= x < cs@.len() ==> (#[trigger] cs@[x]) < ind.len(),
            3 * (ind.len() / 3) == ind.len(),
            g == fan_graph(ind, v as int),
            adj@.len() == a,
            forall|x: int| 0 <= x < a ==> (#[trigger] adj@[x])@ == g[x],
        decreases n - a,
    {
        let mut row: Vec<u32> = Vec::new();
        let mut b: usize = 0;
        while b < n
            invariant
                a < n,
                b <= n,
                n == cs@.len(),
                n <= u32::MAX,
                ind == indices@,
                forall|x: int| 0 <= x < cs@.len() ==> (#[trigger] cs@[x]) < ind.len(),
                3 * (ind.len() / 3) == ind.len(),
                row@ == fan_row(ind, cs@, v as int, a as int, b as int),
            decreases n - b,
        {
            if b != a && shares(indices, cs[a], cs[b], v) {
                row.push(b as u32);
            }
            b += 1;
        }
        adj.push(row);
        a += 1;
    }
    assert(lists(adj@) =~= g);
    proof {
        lemma_fan_symmetric(ind, v as int);
    }
    let mut seen: Vec<bool> = Vec::new();
    let mut i: usize = 0;
    while i < n
        invariant
            i <= n,
            seen@ == Seq::new(i as nat, |k: int| false),
        decreases n - i,
    {
        seen.push(false);
        i += 1;
        assert(seen@ =~= Seq::new(i as nat, |k: int| false));
    }
    assert(closed(lists(adj@), seen@));
    flood(&adj, &mut seen, 0);
    let mut all = true;
    let mut b: usize = 0;
    while b < n
        invariant
            b <= n,
            seen@.len() == n,
            all == forall|x: int| 0 <= x < b ==> #[trigger] seen@[x],
        decreases n - b,
    {
        if !seen[b] {
            all = false;
        }
        b += 1;
    }
    proof {
        if all {
            assert forall|x: int| 0 <= x < g.len() implies connected(g, 0, x) by {
                assert(seen@[x]);
            }
        } else {
            let x = choose|x: int| 0 <= x < n && !seen@[x];
            assert(!connected(g, 0, x));
        }
    }
    !all
}

/// Counts vertices whose incident triangles do not form a single fan
/// (connected through the edges that contain the vertex), e.g. two cones
/// touching at their tips or a "bow tie" of two surfaces sharing a vertex.
pub fn count_non_manifold_vertices(indices: &[u32], nv: usize) -> (c: usize)
    requires
        indices@.len() <= u32::MAX,
        forall|k: int| 0 <= k < indices@.len() ==> (#[trigger] indices@[k]) < nv,
    ensures
        c == (if nv == 0 || indices@.len() / 3 == 0 {
            0
        } else {
            non_manifold_count(indices@.subrange(0, 3 * (indices@.len() / 3) as int), nv as int)
        }),
{
    let nt = indices.len() / 3;
    if nv == 0 || nt == 0 {
        return 0;
    }
    assert(3 * nt <= indices@.len()) by (nonlinear_arith)
        requires
            nt == indices@.len() / 3,
    ;
    let (tris, _) = indices.split_at(3 * nt);
    assert(tris@.len() == 3 * nt);
    assert(tris@.len() % 3 == 0) by (nonlinear_arith)
        requires
            tris@.len() == 3 * nt,
    ;
    assert forall|k: int| 0 <= k < tris@.len() implies (#[trigger] tris@[k]) < nv by {
        assert(tris@[k] == indices@[k]);
    }
    let inc = corner_lists(tris, nv);
    let mut c: usize = 0;
    let mut v: usize = 0;
    while v < nv
        invariant
            v <= nv,
            c <= v,
            inc@.len() == nv,
            tris@ == indices@.subrange(0, 3 * nt as int),
            tris@.len() % 3 == 0,
            tris@.len() <= u32::MAX,
            forall|w: int| 0 <= w < nv ==> (#[trigger] inc@[w])@ == corners_of(tris@, w, tris@.len() as int),
            c == non_manifold_count(tris@, v as int),
        decreases nv - v,
    {
        if fan_is_split(tris, &inc[v], v) {
            c += 1;
        }
        v += 1;
    }
    c
}

// ---------------------------------------------------------------------------
// Edges
// ---------------------------------------------------------------------------

/// The distinct edge keys.
pub open spec fn edge_keys(raw: Seq<EdgeRecord>) -> Set<u64> {
    Set::new(|k: u64| exists|x: int| 0 <= x < raw.len() && raw[x].0 == k)
}

/// All the triangle sides of key `k` run in one direction.
pub open spec fn one_direction(raw: Seq<EdgeRecord>, k: u64) -> bool {
    forall|x: int, y: int|
        0 <= x < raw.len() && 0 <= y < raw.len() && raw[x].0 == k && raw[y].0 == k ==> #[trigger] raw[x].1.0
            == #[trigger] raw[y].1.0
}

pub open spec fn open_key(raw: Seq<EdgeRecord>) -> spec_fn(u64) -> bool {
    |k: u64| key_count(raw, k) == 1
}

pub open spec fn crowded_key(raw: Seq<EdgeRecord>) -> spec_fn(u64) -> bool {
    |k: u64| key_count(raw, k) > 2
}

/// A side shared by two triangles that run it the same way: their
/// windings disagree.
pub open spec fn clashing_key(raw: Seq<EdgeRecord>) -> spec_fn(u64) -> bool {
    |k: u64| key_count(raw, k) == 2 && one_direction(raw, k)
}

/// Triangles `t` and `u` meet at a side that exactly two triangle sides
/// have.
pub open spec fn dual_linked(raw: Seq<EdgeRecord>, t: int, u: int) -> bool {
    exists|x: int, y: int|
        0 <= x < raw.len() && 0 <= y < raw.len() && x != y && #[trigger] raw[x].0 == #[trigger] raw[y].0
            && key_count(raw, raw[x].0) == 2 && raw[x].1.1 as int == t && raw[y].1.1 as int == u
}

/// Counts of the edges of a triangle mesh.
pub struct EdgeStats {
    pub unique_edges: usize,
    pub boundary_edges: usize,
    pub non_manifold_edges: usize,
    pub inconsistent_normals: usize,
}

pub(crate) proof fn lemma_filter_insert(a: Set<u64>, k: u64, p: spec_fn(u64) -> bool)
    requires
        a.finite(),
        !a.contains(k),
    ensures
        a.insert(k).finite(),
        a.insert(k).filter(p).finite(),
        a.insert(k).filter(p).len() == a.filter(p).len() + if p(k) {
            1int
        } else {
            0int
        },
{
    a.lemma_len_filter(p);
    a.insert(k).lemma_len_filter(p);
    if p(k) {
        assert(a.insert(k).filter(p) =~= a.filter(p).insert(k));
        assert(!a.filter(p).contains(k));
    } else {
        assert(a.insert(k).filter(p) =~= a.filter(p));
    }
}

proof fn lemma_push_contains(l: Seq<u32>, a: u32, u: u32)
    ensures
        l.push(a).contains(u) <==> l.contains(u) || u == a,
{
    if l.contains(u) {
        let i = choose|i: int| 0 <= i < l.len() && l[i] == u;
        assert(l.push(a)[i] == u);
    }
    if u == a {
        assert(l.push(a)[l.len() as int] == u);
    }
    if l.push(a).contains(u) {
        let i = choose|i: int| 0 <= i < l.len() + 1 && l.push(a)[i] == u;
        if i < l.len() {
            assert(l[i] == u);
        }
    }
}

/// Two positions hold `v` exactly when `v` counts at least twice.
pub(crate) proof fn lemma_two_positions<A>(s: Seq<A>, v: A)
    ensures
        s.to_multiset().count(v) >= 2 <==> exists|x: int, y: int| 0 <= x < s.len() && 0 <= y < s.len() && x != y && s[x] == v && s[y] == v,
{
    if s.to_multiset().count(v) >= 2 {
        assert(s.contains(v));
        let x = choose|x: int| 0 <= x < s.len() && s[x] == v;
        let r = s.remove(x);
        assert(r.to_multiset() =~= s.to_multiset().remove(v));
        assert(r.to_multiset().count(v) == s.to_multiset().count(v) - 1);
        assert(r.contains(v));
        let y0 = choose|y: int| 0 <= y < r.len() && r[y] == v;
        let y = if y0 < x {
            y0
        } else {
            y0 + 1
        };
        assert(s[y] == v);
    }
    if exists|x: int, y: int| 0 <= x < s.len() && 0 <= y < s.len() && x != y && s[x] == v && s[y] == v {
        let (x, y) = choose|x: int, y: int| 0 <= x < s.len() && 0 <= y < s.len() && x != y && s[x] == v && s[y] == v;
        let r = s.remove(x);
        assert(r.to_multiset() =~= s.to_multiset().remove(v));
        let y0 = if y < x {
            y
        } else {
            y - 1
        };
        assert(r[y0] == v);
        assert(r.contains(v));
        assert(r.to_multiset().count(v) == s.to_multiset().count(v) - 1);
    }
}

/// In a sorted sequence, the positions of key `k` are the block `[i, j)`.
proof fn lemma_block_positions(s: Seq<EdgeRecord>, i: int, j: int, k: u64, p: int)
    requires
        sorted_by_key(s),
        0 <= i < j <= s.len(),
        forall|x: int| i <= x < j ==> (#[trigger] s[x]).0 == k,
        i > 0 ==> s[i - 1].0 != k,
        j < s.len() ==> s[j].0 != k,
        0 <= p < s.len(),
        s[p].0 == k,
    ensures
        i <= p < j,
{
    if p < i {
        assert(s[p].0 <= s[i - 1].0);
        assert(s[i - 1].0 <= s[i].0);
    }
    if p >= j {
        assert(s[j].0 <= s[p].0);
        assert(s[j - 1].0 <= s[j].0);
    }
}

/// Pairs of positions of one key counted twice, before `i`.
pub open spec fn s_linked(s: Seq<EdgeRecord>, i: int, t: int, u: int) -> bool {
    exists|x: int, y: int|
        0 <= x < i && 0 <= y < i && x != y && #[trigger] s[x].0 == #[trigger] s[y].0 && key_count(s, s[x].0) == 2
            && s[x].1.1 as int == t && s[y].1.1 as int == u
}

/// Scans the sorted sides: counts the edges by kind and links the
/// triangles across the sides that two triangles have.
fn edge_scan(raw: &Vec<EdgeRecord>, nt: usize, Ghost(all): Ghost<Seq<EdgeRecord>>) -> (r: (EdgeStats, Vec<Vec<u32>>))
    requires
        raw@.to_multiset() == all.to_multiset(),
        sorted_by_key(raw@),
        nt <= u32::MAX,
        forall|x: int| 0 <= x < raw@.len() ==> ((#[trigger] raw@[x]).1.1 as int) < nt,
    ensures
        r.0.unique_edges == edge_keys(all).len(),
        r.0.boundary_edges == edge_keys(all).filter(open_key(all)).len(),
        r.0.non_manifold_edges == edge_keys(all).filter(crowded_key(all)).len(),
        r.0.inconsistent_normals == edge_keys(all).filter(clashing_key(all)).len(),
        r.0.unique_edges <= raw@.len(),
        edge_keys(all).finite(),
        r.1@.len() == nt,
        forall|t: int, u: u32| 0 <= t < nt ==> (#[trigger] r.1@[t]@.contains(u) <==> dual_linked(all, t, u as int)),
{
    let ghost s = raw@;
    let n = raw.len();
    proof {
        assert forall|key: u64| key_count(s, key) == key_count(all, key) by {
            lemma_perm_filter_len(s, all, with_key::<((u32, u32), u32)>(key));
        }
    }
    let mut adj: Vec<Vec<u32>> = Vec::new();
    let mut z: usize = 0;
    while z < nt
        invariant
            z <= nt,
            adj@.len() == z,
            forall|w: int| 0 <= w < z ==> (#[trigger] adj@[w])@ == Seq::<u32>::empty(),
        decreases nt - z,
    {
        adj.push(Vec::new());
        z += 1;
    }
    let mut unique: usize = 0;
    let mut open: usize = 0;
    let mut crowded: usize = 0;
    let mut clash: usize = 0;
    let ghost mut keys: Set<u64> = Set::empty();
    proof {
        assert(keys.filter(open_key(all)) =~= Set::<u64>::empty());
        assert(keys.filter(crowded_key(all)) =~= Set::<u64>::empty());
        assert(keys.filter(clashing_key(all)) =~= Set::<u64>::empty());
    }
    let mut i: usize = 0;
    while i < n
        invariant
            s == raw@,
            n == s.len(),
            s.to_multiset() == all.to_multiset(),
            sorted_by_key(s),
            nt <= u32::MAX,
            forall|x: int| 0 <= x < s.len() ==> ((#[trigger] s[x]).1.1 as int) < nt,
            forall|key: u64| key_count(s, key) == key_count(all, key),
            i <= n,
            0 < i < n ==> s[i - 1].0 != s[i as int].0,
            0 < i < n ==> s[i - 1].0 < s[i as int].0,
            keys.finite(),
            forall|key: u64| #[trigger] keys.contains(key) <==> exists|x: int| 0 <= x < i && s[x].0 == key,
            unique == keys.len(),
            open == keys.filter(open_key(all)).len(),
            crowded == keys.filter(crowded_key(all)).len(),
            clash == keys.filter(clashing_key(all)).len(),
            unique <= i,
            open <= unique,
            crowded <= unique,
            clash <= unique,
            adj@.len() == nt,
            forall|t: int, u: u32| 0 <= t < nt ==> (#[trigger] adj@[t]@.contains(u) <==> s_linked(s, i as int, t, u as int)),
        decreases n - i,
    {
        let k = raw[i].0;
        let mut j = i + 1;
        while j < n && raw[j].0 == k
            invariant
                i < j <= n,
                n == raw@.len(),
                k == s[i as int].0,
                s == raw@,
                forall|x: int| i <= x < j ==> (#[trigger] s[x]).0 == k,
            decreases n - j,
        {
            j += 1;
        }
        proof {
            lemma_block_count(s, i as int, j as int, k);
            if j < n {
                assert(s[i as int].0 <= s[j as int].0);
            }
            assert(!keys.contains(k)) by {
                if keys.contains(k) {
                    let x = choose|x: int| 0 <= x < i && s[x].0 == k;
                    lemma_block_positions(s, i as int, j as int, k, x);
                }
            }
            keys.lemma_len_filter(open_key(all));
            keys.lemma_len_filter(crowded_key(all));
            keys.lemma_len_filter(clashing_key(all));
            lemma_filter_insert(keys, k, open_key(all));
            lemma_filter_insert(keys, k, crowded_key(all));
            lemma_filter_insert(keys, k, clashing_key(all));
            vstd::set::axiom_set_insert_len(keys, k);
        }
        let ghost old_keys = keys;
        let count = j - i;
        unique += 1;
        if count == 1 {
            open += 1;
        } else if count == 2 {
            let d0 = raw[i].1.0;
            let d1 = raw[i + 1].1.0;
            proof {
                lemma_one_direction(s, all, i as int, k);
            }
            if d0.0 == d1.0 && d0.1 == d1.1 {
                clash += 1;
            }
            let t0 = raw[i].1.1;
            let t1 = raw[i + 1].1.1;
            let ghost before = adj@;
            let l0 = super::repair::appended(&adj[t0 as usize], t1);
            adj.set(t0 as usize, l0);
            let l1 = super::repair::appended(&adj[t1 as usize], t0);
            adj.set(t1 as usize, l1);
            proof {
                lemma_linked_block(s, i as int, k, nt as int);
                assert forall|t: int, u: u32| 0 <= t < nt implies (#[trigger] adj@[t]@.contains(u) <==> s_linked(s, j as int, t, u as int)) by {
                    if t == t0 as int && t == t1 as int {
                        assert(adj@[t]@ == before[t]@.push(t1).push(t0));
                        lemma_push_contains(before[t]@, t1, u);
                        lemma_push_contains(before[t]@.push(t1), t0, u);
                    } else if t == t0 as int {
                        assert(adj@[t]@ == before[t]@.push(t1));
                        lemma_push_contains(before[t]@, t1, u);
                    } else if t == t1 as int {
                        assert(adj@[t]@ == before[t]@.push(t0));
                        lemma_push_contains(before[t]@, t0, u);
                    }
                }
            }
        } else {
            crowded += 1;
        }
        proof {
            keys = keys.insert(k);
            assert forall|key: u64| #[trigger] keys.contains(key) <==> exists|x: int| 0 <= x < j && s[x].0 == key by {
                if key == k {
                    assert(s[i as int].0 == key);
                }
                if exists|x: int| 0 <= x < j && s[x].0 == key {
                    let x = choose|x: int| 0 <= x < j && s[x].0 == key;
                    if x >= i {
                        assert(s[x].0 == k);
                    } else {
                        assert(old_keys.contains(key));
                    }
                }
            }
            if count != 2 {
                lemma_unlinked_block(s, i as int, j as int, k, nt as int);
            }
        }
        i = j;
    }
    proof {
        assert(keys =~= edge_keys(all)) by {
            assert forall|key: u64| keys.contains(key) <==> edge_keys(all).contains(key) by {
                if keys.contains(key) {
                    let x = choose|x: int| 0 <= x < n && s[x].0 == key;
                    assert(s.contains(s[x]));
                    assert(all.to_multiset().count(s[x]) > 0);
                    let y = choose|y: int| 0 <= y < all.len() && all[y] == s[x];
                }
                if edge_keys(all).contains(key) {
                    let y = choose|y: int| 0 <= y < all.len() && all[y].0 == key;
                    assert(all.contains(all[y]));
                    assert(s.to_multiset().count(all[y]) > 0);
                    let x = choose|x: int| 0 <= x < s.len() && s[x] == all[y];
                }
            }
        }
        assert forall|t: int, u: u32| 0 <= t < nt implies (#[trigger] adj@[t]@.contains(u) <==> dual_linked(all, t, u as int)) by {
            lemma_linked_all(s, all, t, u as int);
        }
    }
    (EdgeStats { unique_edges: unique, boundary_edges: open, non_manifold_edges: crowded, inconsistent_normals: clash }, adj)
}

/// A block of two sides runs one way exactly when its two sides do.
proof fn lemma_one_direction(s: Seq<EdgeRecord>, all: Seq<EdgeRecord>, i: int, k: u64)
    requires
        s.to_multiset() == all.to_multiset(),
        sorted_by_key(s),
        0 <= i,
        i + 2 <= s.len(),
        s[i].0 == k,
        s[i + 1].0 == k,
        i > 0 ==> s[i - 1].0 != k,
        i + 2 < s.len() ==> s[i + 2].0 != k,
    ensures
        one_direction(all, k) <==> s[i].1.0 == s[i + 1].1.0,
{
    assert(s.contains(s[i]));
    assert(s.contains(s[i + 1]));
    assert(all.to_multiset().count(s[i]) > 0);
    assert(all.to_multiset().count(s[i + 1]) > 0);
    let x = choose|x: int| 0 <= x < all.len() && all[x] == s[i];
    let y = choose|y: int| 0 <= y < all.len() && all[y] == s[i + 1];
    if s[i].1.0 == s[i + 1].1.0 {
        assert forall|a: int, b: int| 0 <= a < all.len() && 0 <= b < all.len() && all[a].0 == k && all[b].0 == k
            implies #[trigger] all[a].1.0 == #[trigger] all[b].1.0 by {
            assert(all.contains(all[a]));
            assert(all.contains(all[b]));
            assert(s.to_multiset().count(all[a]) > 0);
            assert(s.to_multiset().count(all[b]) > 0);
            let pa = choose|p: int| 0 <= p < s.len() && s[p] == all[a];
            let pb = choose|p: int| 0 <= p < s.len() && s[p] == all[b];
            lemma_block_positions(s, i, i + 2, k, pa);
            lemma_block_positions(s, i, i + 2, k, pb);
        }
    } else {
        assert(all[x].1.0 != all[y].1.0);
    }
}

/// After a block of two sides, the links are those before and the two
/// sides' triangles, both ways.
proof fn lemma_linked_block(s: Seq<EdgeRecord>, i: int, k: u64, nt: int)
    requires
        sorted_by_key(s),
        0 <= i,
        i + 2 <= s.len(),
        s[i].0 == k,
        s[i + 1].0 == k,
        i > 0 ==> s[i - 1].0 != k,
        i + 2 < s.len() ==> s[i + 2].0 != k,
        key_count(s, k) == 2,
    ensures
        forall|t: int, u: int| #[trigger] s_linked(s, i + 2, t, u) <==> s_linked(s, i, t, u) || (t == s[i].1.1 as int && u
            == s[i + 1].1.1 as int) || (t == s[i + 1].1.1 as int && u == s[i].1.1 as int),
{
    assert forall|t: int, u: int| #[trigger] s_linked(s, i + 2, t, u) <==> s_linked(s, i, t, u) || (t == s[i].1.1 as int && u
        == s[i + 1].1.1 as int) || (t == s[i + 1].1.1 as int && u == s[i].1.1 as int) by {
        if s_linked(s, i + 2, t, u) {
            let (x, y) = choose|x: int, y: int|
                0 <= x < i + 2 && 0 <= y < i + 2 && x != y && #[trigger] s[x].0 == #[trigger] s[y].0 && key_count(s, s[x].0) == 2
                    && s[x].1.1 as int == t && s[y].1.1 as int == u;
            if x >= i || y >= i {
                if x >= i {
                    lemma_block_positions(s, i, i + 2, k, y);
                } else {
                    lemma_block_positions(s, i, i + 2, k, x);
                }
            }
        }
        if t == s[i].1.1 as int && u == s[i + 1].1.1 as int {
            assert(s[i].0 == s[i + 1].0);
        }
        if t == s[i + 1].1.1 as int && u == s[i].1.1 as int {
            assert(s[i + 1].0 == s[i].0);
        }
        if s_linked(s, i, t, u) {
            let (x, y) = choose|x: int, y: int|
                0 <= x < i && 0 <= y < i && x != y && #[trigger] s[x].0 == #[trigger] s[y].0 && key_count(s, s[x].0) == 2
                    && s[x].1.1 as int == t && s[y].1.1 as int == u;
            assert(0 <= x < i + 2 && 0 <= y < i + 2);
        }
    }
}

/// A block not of two sides adds no links.
proof fn lemma_unlinked_block(s: Seq<EdgeRecord>, i: int, j: int, k: u64, nt: int)
    requires
        sorted_by_key(s),
        0 <= i < j <= s.len(),
        forall|x: int| i <= x < j ==> (#[trigger] s[x]).0 == k,
        i > 0 ==> s[i - 1].0 != k,
        j < s.len() ==> s[j].0 != k,
        key_count(s, k) != 2,
    ensures
        forall|t: int, u: int| #[trigger] s_linked(s, j, t, u) <==> s_linked(s, i, t, u),
{
    assert forall|t: int, u: int| #[trigger] s_linked(s, j, t, u) <==> s_linked(s, i, t, u) by {
        if s_linked(s, j, t, u) {
            let (x, y) = choose|x: int, y: int|
                0 <= x < j && 0 <= y < j && x != y && #[trigger] s[x].0 == #[trigger] s[y].0 && key_count(s, s[x].0) == 2
                    && s[x].1.1 as int == t && s[y].1.1 as int == u;
            if x >= i {
                assert(s[x].0 == k);
            }
            if y >= i {
                assert(s[y].0 == k);
            }
        }
        if s_linked(s, i, t, u) {
            let (x, y) = choose|x: int, y: int|
                0 <= x < i && 0 <= y < i && x != y && #[trigger] s[x].0 == #[trigger] s[y].0 && key_count(s, s[x].0) == 2
                    && s[x].1.1 as int == t && s[y].1.1 as int == u;
            assert(0 <= x < j && 0 <= y < j);
        }
    }
}

/// The links of the sorted sides are those of the sides.
proof fn lemma_linked_all(s: Seq<EdgeRecord>, all: Seq<EdgeRecord>, t: int, u: int)
    requires
        s.to_multiset() == all.to_multiset(),
        forall|key: u64| key_count(s, key) == key_count(all, key),
    ensures
        s_linked(s, s.len() as int, t, u) <==> dual_linked(all, t, u),
{
    if s_linked(s, s.len() as int, t, u) {
        let (x, y) = choose|x: int, y: int|
            0 <= x < s.len() && 0 <= y < s.len() && x != y && #[trigger] s[x].0 == #[trigger] s[y].0 && key_count(s, s[x].0) == 2
                && s[x].1.1 as int == t && s[y].1.1 as int == u;
        assert(s.contains(s[x]) && s.contains(s[y]));
        assert(all.to_multiset().count(s[x]) > 0 && all.to_multiset().count(s[y]) > 0);
        if s[x] == s[y] {
            lemma_two_positions(s, s[x]);
            lemma_two_positions(all, s[x]);
            let (a, b) = choose|a: int, b: int| 0 <= a < all.len() && 0 <= b < all.len() && a != b && all[a] == s[x] && all[b] == s[x];
            assert(all[a].0 == all[b].0);
        } else {
            let a = choose|a: int| 0 <= a < all.len() && all[a] == s[x];
            let b = choose|b: int| 0 <= b < all.len() && all[b] == s[y];
            assert(all[a].0 == all[b].0);
        }
    }
    if dual_linked(all, t, u) {
        let (a, b) = choose|a: int, b: int|
            0 <= a < all.len() && 0 <= b < all.len() && a != b && #[trigger] all[a].0 == #[trigger] all[b].0 && key_count(all, all[a].0) == 2
                && all[a].1.1 as int == t && all[b].1.1 as int == u;
        assert(all.contains(all[a]) && all.contains(all[b]));
        assert(s.to_multiset().count(all[a]) > 0 && s.to_multiset().count(all[b]) > 0);
        if all[a] == all[b] {
            lemma_two_positions(all, all[a]);
            lemma_two_positions(s, all[a]);
            let (x, y) = choose|x: int, y: int| 0 <= x < s.len() && 0 <= y < s.len() && x != y && s[x] == all[a] && s[y] == all[a];
            assert(s[x].0 == s[y].0);
        } else {
            let x = choose|x: int| 0 <= x < s.len() && s[x] == all[a];
            let y = choose|y: int| 0 <= y < s.len() && s[y] == all[b];
            assert(s[x].0 == s[y].0);
        }
    }
}

// ---------------------------------------------------------------------------
// Health report
// ---------------------------------------------------------------------------

/// Diagnostic report on mesh manifoldness, watertightness, and defects.
#[derive(Clone, Copy, Debug, PartialEq, Eq, Structural)]
pub struct MeshHealthReport {
    /// True if the mesh is closed (0 boundary edges) and 2-manifold.
    pub is_watertight: bool,
    /// Euler characteristic: V - E + F
    pub euler_characteristic: i32,
    /// Genus: (2 - chi) / 2 (for a single closed shell; 0 otherwise)
    pub genus: i32,
    /// Count of open boundary edges.
    pub boundary_edges: usize,
    /// Count of distinct closed boundary loops / holes.
    pub hole_count: usize,
    /// Count of non-manifold edges (edges shared by >= 3 triangles).
    pub non_manifold_edges: usize,
    /// Count of non-manifold vertices (vertices with disconnected triangle fans).
    pub non_manifold_verts: usize,
    /// Count of degenerate triangles (zero area or duplicate vertex indices).
    pub degenerate_faces: usize,
    /// Count of duplicate triangles (same 3 vertices).
    pub duplicate_faces: usize,
    /// Count of vertices not used by any triangle.
    pub isolated_verts: usize,
    /// Number of disconnected connected components (shells).
    pub component_count: usize,
    /// Count of edge neighbors with conflicting face winding / inverted normals.
    pub inconsistent_normals: usize,
}

/// The report of an empty mesh.
pub open spec fn empty_report() -> MeshHealthReport {
    MeshHealthReport {
        is_watertight: false,
        euler_characteristic: 0,
        genus: 0,
        boundary_edges: 0,
        hole_count: 0,
        non_manifold_edges: 0,
        non_manifold_verts: 0,
        degenerate_faces: 0,
        duplicate_faces: 0,
        isolated_verts: 0,
        component_count: 0,
        inconsistent_normals: 0,
    }
}

impl Default for MeshHealthReport {
    fn default() -> (r: Self)
        ensures
            r == empty_report(),
    {
        MeshHealthReport {
            is_watertight: false,
            euler_characteristic: 0,
            genus: 0,
            boundary_edges: 0,
            hole_count: 0,
            non_manifold_edges: 0,
            non_manifold_verts: 0,
            degenerate_faces: 0,
            duplicate_faces: 0,
            isolated_verts: 0,
            component_count: 0,
            inconsistent_normals: 0,
        }
    }
}

/// Triangle `t` repeats a vertex.
pub open spec fn index_degenerate(ind: Seq<u32>, t: int) -> bool {
    ind[3 * t] == ind[3 * t + 1] || ind[3 * t + 1] == ind[3 * t + 2] || ind[3 * t + 2] == ind[3 * t]
}

/// How many of the first `k` triangles are degenerate: a repeated vertex,
/// or (by `flat`) no area.
pub open spec fn degenerate_count(ind: Seq<u32>, flat: Seq<bool>, k: int) -> nat
    decreases k,
{
    if k <= 0 {
        0
    } else {
        degenerate_count(ind, flat, k - 1) + if index_degenerate(ind, k - 1) || flat[k - 1] {
            1nat
        } else {
            0nat
        }
    }
}

pub open spec fn min3(a: int, b: int, c: int) -> int {
    if a <= b && a <= c {
        a
    } else if b <= c {
        b
    } else {
        c
    }
}

pub open spec fn max3(a: int, b: int, c: int) -> int {
    if a >= b && a >= c {
        a
    } else if b >= c {
        b
    } else {
        c
    }
}

/// The vertices of triangle `t` in increasing order, as one number.
pub open spec fn tri_key(ind: Seq<u32>, t: int) -> int {
    let (a, b, c) = (ind[3 * t] as int, ind[3 * t + 1] as int, ind[3 * t + 2] as int);
    let lo = min3(a, b, c);
    let hi = max3(a, b, c);
    let mid = a + b + c - lo - hi;
    lo * 0x1_0000_0000_0000_0000 + mid * 0x1_0000_0000 + hi
}

/// Triangle `t` has the vertices of an earlier triangle (neither repeating
/// a vertex).
pub open spec fn is_duplicate(ind: Seq<u32>, t: int) -> bool {
    !index_degenerate(ind, t) && exists|u: int| 0 <= u < t && !index_degenerate(ind, u) && tri_key(ind, u) == tri_key(ind, t)
}

pub open spec fn duplicate_count(ind: Seq<u32>, k: int) -> nat
    decreases k,
{
    if k <= 0 {
        0
    } else {
        duplicate_count(ind, k - 1) + if is_duplicate(ind, k - 1) {
            1nat
        } else {
            0nat
        }
    }
}

/// Vertex `v` is a corner of some triangle.
pub open spec fn is_used(ind: Seq<u32>, v: int) -> bool {
    exists|k: int| 0 <= k < ind.len() && ind[k] == v
}

/// How many of the first `k` vertices no triangle uses.
pub open spec fn unused_count(ind: Seq<u32>, k: int) -> nat
    decreases k,
{
    if k <= 0 {
        0
    } else {
        unused_count(ind, k - 1) + if !is_used(ind, k - 1) {
            1nat
        } else {
            0nat
        }
    }
}

/// A dual graph of the triangles: linked across sides of exactly two
/// triangles.
pub open spec fn dual_graph(ind: Seq<u32>) -> Seq<Seq<u32>> {
    choose|g: Seq<Seq<u32>>|
        g.len() == ind.len() / 3 && forall|t: int, u: u32| 0 <= t < g.len() ==> (#[trigger] g[t].contains(u)
            <==> dual_linked(edge_records(ind), t, u as int))
}

/// `x / 2` as Rust divides, rounding toward zero.
pub open spec fn half_toward_zero(x: int) -> int {
    if x >= 0 {
        x / 2
    } else {
        -((-x) / 2)
    }
}

/// The health report of the triangles `ind` on `nv` vertices, where `flat`
/// tells which triangles have no area.
pub open spec fn health(ind: Seq<u32>, nv: nat, flat: Seq<bool>) -> MeshHealthReport {
    let nt = ind.len() / 3;
    if nt == 0 || nv == 0 {
        empty_report()
    } else {
        let raw = edge_records(ind);
        let keys = edge_keys(raw);
        let boundary = keys.filter(open_key(raw)).len();
        let crowded = keys.filter(crowded_key(raw)).len();
        let nm_verts = non_manifold_count(ind, nv as int);
        let comps = leaders(dual_graph(ind), nt as int);
        let chi = (nv - unused_count(ind, nv as int)) - keys.len() + nt;
        let watertight = boundary == 0 && crowded == 0 && nm_verts == 0;
        MeshHealthReport {
            is_watertight: watertight,
            euler_characteristic: chi as i32,
            genus: if watertight && comps == 1 {
                half_toward_zero(2 - chi) as i32
            } else {
                0
            },
            boundary_edges: boundary as usize,
            hole_count: hole_loops(ind).len() as usize,
            non_manifold_edges: crowded as usize,
            non_manifold_verts: nm_verts as usize,
            degenerate_faces: degenerate_count(ind, flat, nt as int) as usize,
            duplicate_faces: duplicate_count(ind, nt as int) as usize,
            isolated_verts: unused_count(ind, nv as int) as usize,
            component_count: comps as usize,
            inconsistent_normals: keys.filter(clashing_key(raw)).len() as usize,
        }
    }
}

/// A genus is given only for a closed surface: a report that is not
/// watertight (an open edge, an edge of three or more triangles, or a
/// pinched vertex) or that counts other than one shell gives genus 0.
pub proof fn lemma_genus_only_when_closed(ind: Seq<u32>, nv: nat, flat: Seq<bool>)
    ensures
        !health(ind, nv, flat).is_watertight ==> health(ind, nv, flat).genus == 0,
        health(ind, nv, flat).boundary_edges > 0 ==> health(ind, nv, flat).genus == 0,
        health(ind, nv, flat).non_manifold_edges > 0 ==> health(ind, nv, flat).genus == 0,
        health(ind, nv, flat).non_manifold_verts > 0 ==> health(ind, nv, flat).genus == 0,
        health(ind, nv, flat).component_count != 1 ==> health(ind, nv, flat).genus == 0,
{
}

fn sort3_key(a: u32, b: u32, c: u32) -> (k: u128)
    ensures
        k as int == ({
            let lo = min3(a as int, b as int, c as int);
            let hi = max3(a as int, b as int, c as int);
            let mid = a + b + c - lo - hi;
            lo * 0x1_0000_0000_0000_0000 + mid * 0x1_0000_0000 + hi
        }),
{
    let lo = if a <= b && a <= c {
        a
    } else if b <= c {
        b
    } else {
        c
    };
    let hi = if a >= b && a >= c {
        a
    } else if b >= c {
        b
    } else {
        c
    };
    let mid = (a as u64 + b as u64 + c as u64 - lo as u64 - hi as u64) as u32;
    assert(lo as int * 0x1_0000_0000_0000_0000 + mid as int * 0x1_0000_0000 + hi as int <= u128::MAX) by (nonlinear_arith)
        requires
            lo <= u32::MAX,
            mid <= u32::MAX,
            hi <= u32::MAX,
    ;
    lo as u128 * 0x1_0000_0000_0000_0000 + mid as u128 * 0x1_0000_0000 + hi as u128
}

/// Degenerate triangles, duplicate triangles and unused vertices.
fn face_counts(indices: &[u32], nv: usize, flat: &[bool]) -> (r: (usize, usize, usize))
    requires
        indices@.len() % 3 == 0,
        flat@.len() == indices@.len() / 3,
        forall|k: int| 0 <= k < indices@.len() ==> (#[trigger] indices@[k]) < nv,
    ensures
        r.0 == degenerate_count(indices@, flat@, (indices@.len() / 3) as int),
        r.1 == duplicate_count(indices@, (indices@.len() / 3) as int),
        r.2 == unused_count(indices@, nv as int),
        r.2 <= nv,
{
    let ghost ind = indices@;
    let len = indices.len();
    let nt = len / 3;
    let mut used: Vec<bool> = Vec::new();
    let mut v: usize = 0;
    while v < nv
        invariant
            v <= nv,
            used@ == Seq::new(v as nat, |x: int| false),
        decreases nv - v,
    {
        used.push(false);
        v += 1;
        assert(used@ =~= Seq::new(v as nat, |x: int| false));
    }
    let mut k: usize = 0;
    while k < len
        invariant
            ind == indices@,
            len == ind.len(),
            k <= len,
            used@.len() == nv,
            forall|x: int| 0 <= x < ind.len() ==> (#[trigger] ind[x]) < nv,
            forall|w: int| 0 <= w < nv ==> (#[trigger] used@[w] <==> exists|x: int| 0 <= x < k && ind[x] == w),
        decreases len - k,
    {
        let w = indices[k] as usize;
        used.set(w, true);
        proof {
            assert forall|u: int| 0 <= u < nv implies (#[trigger] used@[u] <==> exists|x: int| 0 <= x < k + 1 && ind[x] == u) by {
                if u == w {
                    assert(ind[k as int] == u);
                }
            }
        }
        k += 1;
    }
    let mut unused: usize = 0;
    let mut v: usize = 0;
    while v < nv
        invariant
            v <= nv,
            used@.len() == nv,
            forall|w: int| 0 <= w < nv ==> (#[trigger] used@[w] <==> is_used(ind, w)),
            unused == unused_count(ind, v as int),
            unused <= v,
        decreases nv - v,
    {
        if !used[v] {
            unused += 1;
        }
        v += 1;
    }
    let mut seen: HashSet<u128> = HashSet::new();
    let mut degenerate: usize = 0;
    let mut duplicate: usize = 0;
    let mut t: usize = 0;
    while t < nt
        invariant
            ind == indices@,
            len == ind.len(),
            nt == len / 3,
            len % 3 == 0,
            flat@.len() == nt,
            t <= nt,
            degenerate == degenerate_count(ind, flat@, t as int),
            duplicate == duplicate_count(ind, t as int),
            degenerate <= t,
            duplicate <= t,
            forall|key: u128| #[trigger] seen@.contains(key) <==> exists|u: int| 0 <= u < t && !index_degenerate(ind, u)
                && tri_key(ind, u) == key as int,
        decreases nt - t,
    {
        assert(3 * t + 2 < len) by (nonlinear_arith)
            requires
                t < nt,
                nt == len / 3,
        ;
        let b = 3 * t;
        let (i0, i1, i2) = (indices[b], indices[b + 1], indices[b + 2]);
        if i0 == i1 || i1 == i2 || i2 == i0 {
            degenerate += 1;
            proof {
                assert forall|key: u128| #[trigger] seen@.contains(key) <==> exists|u: int| 0 <= u < t + 1 && !index_degenerate(ind, u)
                    && tri_key(ind, u) == key as int by {
                    if exists|u: int| 0 <= u < t + 1 && !index_degenerate(ind, u) && tri_key(ind, u) == key as int {
                        let u = choose|u: int| 0 <= u < t + 1 && !index_degenerate(ind, u) && tri_key(ind, u) == key as int;
                        assert(u != t);
                    }
                }
            }
        } else {
            if flat[t] {
                degenerate += 1;
            }
            let key = sort3_key(i0, i1, i2);
            assert(key as int == tri_key(ind, t as int));
            let ghost before = seen@;
            let fresh = seen.insert(key);
            if !fresh {
                duplicate += 1;
            }
            proof {
                assert(is_duplicate(ind, t as int) == !fresh) by {
                    if !fresh {
                        let u = choose|u: int| 0 <= u < t && !index_degenerate(ind, u) && tri_key(ind, u) == key as int;
                    }
                    if is_duplicate(ind, t as int) {
                        let u = choose|u: int| 0 <= u < t && !index_degenerate(ind, u) && tri_key(ind, u) == tri_key(ind, t as int);
                        assert(before.contains(key));
                    }
                }
                assert forall|k2: u128| #[trigger] seen@.contains(k2) <==> exists|u: int| 0 <= u < t + 1 && !index_degenerate(ind, u)
                    && tri_key(ind, u) == k2 as int by {
                    if k2 == key {
                        assert(!index_degenerate(ind, t as int) && tri_key(ind, t as int) == k2 as int);
                    }
                    if exists|u: int| 0 <= u < t + 1 && !index_degenerate(ind, u) && tri_key(ind, u) == k2 as int {
                        let u = choose|u: int| 0 <= u < t + 1 && !index_degenerate(ind, u) && tri_key(ind, u) == k2 as int;
                        if u == t {
                            assert(k2 as int == key as int);
                        } else {
                            assert(before.contains(k2));
                        }
                    }
                }
            }
        }
        t += 1;
    }
    (degenerate, duplicate, unused)
}

fn half_toward_zero_exec(x: i32) -> (r: i32)
    requires
        x > i32::MIN,
    ensures
        r as int == half_toward_zero(x as int),
{
    if x >= 0 {
        x / 2
    } else {
        -((-x) / 2)
    }
}

/// Analyzes the mesh and generates a comprehensive health report. The
/// mesh is its triangles `indices` on `nv` vertices; `flat` tells which
/// triangles (of three different vertices) have no area.
pub fn analyze_mesh(indices: &[u32], nv: usize, flat: &[bool]) -> (r: MeshHealthReport)
    requires
        indices@.len() % 3 == 0,
        flat@.len() == indices@.len() / 3,
        forall|k: int| 0 <= k < indices@.len() ==> (#[trigger] indices@[k]) < nv,
        nv + indices@.len() <= i32::MAX,
    ensures
        r == health(indices@, nv as nat, flat@),
        !r.is_watertight ==> r.genus == 0,
        r.boundary_edges > 0 ==> r.genus == 0,
{
    let ghost ind = indices@;
    let len = indices.len();
    let nt = len / 3;
    if nt == 0 || nv == 0 {
        return MeshHealthReport::default();
    }
    let (degenerate, duplicate, unused) = face_counts(indices, nv, flat);
    // Edges, by kind, and the shells across shared edges.
    let mut raw = collect_edges(indices);
    let ghost all = raw@;
    par_sort_by_key(&mut raw);
    proof {
        assert forall|x: int| 0 <= x < raw@.len() implies ((#[trigger] raw@[x]).1.1 as int) < nt by {
            assert(raw@.contains(raw@[x]));
            assert(all.to_multiset().count(raw@[x]) > 0);
            let y = choose|y: int| 0 <= y < all.len() && all[y] == raw@[x];
            assert(0 <= y / 3 < nt) by (nonlinear_arith)
                requires
                    0 <= y < 3 * nt,
            ;
            assert(((y / 3) as u32) as int == y / 3);
        }
    }
    proof {
        assert(raw@.len() == raw@.to_multiset().len());
        assert(all.len() == all.to_multiset().len());
        assert(3 * nt == len) by (nonlinear_arith)
            requires
                nt == len / 3,
                len % 3 == 0,
        ;
    }
    let (stats, adj) = edge_scan(&raw, nt, Ghost(all));
    proof {
        assert forall|a: int, j: int| 0 <= a < lists(adj@).len() && 0 <= j < lists(adj@)[a].len() implies (#[trigger] lists(adj@)[a][j]) < lists(adj@).len()
            && lists(adj@)[lists(adj@)[a][j] as int].contains(a as u32) by {
            let u = lists(adj@)[a][j];
            assert(adj@[a]@.contains(u));
            assert(dual_linked(all, a, u as int));
            let (x, y) = choose|x: int, y: int|
                0 <= x < all.len() && 0 <= y < all.len() && x != y && #[trigger] all[x].0 == #[trigger] all[y].0
                    && key_count(all, all[x].0) == 2 && all[x].1.1 as int == a && all[y].1.1 as int == u as int;
            assert(0 <= y / 3 < nt) by (nonlinear_arith)
                requires
                    0 <= y < 3 * nt,
            ;
            assert(((y / 3) as u32) as int == y / 3);
            assert(dual_linked(all, u as int, a));
        }
        assert(symmetric(lists(adj@)));
    }
    let components = count_components(&adj);
    proof {
        let g = dual_graph(ind);
        assert(lists(adj@).len() == nt && forall|t: int, u: u32| 0 <= t < lists(adj@).len() ==> (#[trigger] lists(adj@)[t].contains(u)
            <==> dual_linked(edge_records(ind), t, u as int)));
        lemma_same_leaders(lists(adj@), g, nt as int);
    }
    let holes = trace_hole_loops(indices);
    let hole_count = holes.len();
    let nm_verts = count_non_manifold_vertices(indices, nv);
    proof {
        assert(ind.subrange(0, 3 * (ind.len() / 3) as int) =~= ind);
    }
    let used = nv - unused;
    assert(stats.unique_edges <= len);
    let chi = used as i32 - stats.unique_edges as i32 + nt as i32;
    let watertight = stats.boundary_edges == 0 && stats.non_manifold_edges == 0 && nm_verts == 0;
    let genus = if watertight && components == 1 {
        half_toward_zero_exec(2 - chi)
    } else {
        0
    };
    MeshHealthReport {
        is_watertight: watertight,
        euler_characteristic: chi,
        genus,
        boundary_edges: stats.boundary_edges,
        hole_count,
        non_manifold_edges: stats.non_manifold_edges,
        non_manifold_verts: nm_verts,
        degenerate_faces: degenerate,
        duplicate_faces: duplicate,
        isolated_verts: unused,
        component_count: components,
        inconsistent_normals: stats.inconsistent_normals,
    }
}

} // verus!
