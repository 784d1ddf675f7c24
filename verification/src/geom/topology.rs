//! The dual graph of a triangle mesh: for every triangle edge, the triangle
//! across it; and shrinking a selection of triangles along that graph.
use vstd::prelude::*;
use crate::sorting::{
    key_count, lemma_block_count, lemma_perm_filter_len, par_sort_by_key, sorted_by_key, with_key,
};
use super::boundary::{key_code, tri_edge};

verus! {

broadcast use {vstd::seq_lib::group_to_multiset_ensures, vstd::multiset::group_multiset_axioms};

/// Triangle-to-triangle edge adjacency: for triangle `t`, the triangles
/// across its edges 0, 1, 2 (`u32::MAX` for an open edge).
pub struct MeshTopology {
    pub neighbors: Vec<[u32; 3]>,
}

/// A triangle edge as a sortable record: key, triangle, edge (0, 1, 2).
pub type SideRecord = (u64, (u32, u8));

/// The edges of all triangles, three per triangle in order.
pub open spec fn side_records(ind: Seq<u32>) -> Seq<SideRecord> {
    Seq::new(
        (3 * (ind.len() / 3)) as nat,
        |x: int|
            {
                let d = tri_edge(ind, x / 3, x % 3);
                (key_code(d.0, d.1), ((x / 3) as u32, (x % 3) as u8))
            },
    )
}

/// Position `x` of `side_records` sits at `side_of(record)`.
pub open spec fn side_of(e: SideRecord) -> int {
    3 * e.1.0 + e.1.1
}

/// `nb` is what the dual graph holds across side `x`: nothing for an open
/// edge, else the triangle of another side with the same key. (With two
/// sides on the key, that is the other one; on a non-manifold edge, the
/// sides of the key are linked in a cycle.)
pub open spec fn across(raw: Seq<SideRecord>, x: int, nb: u32) -> bool {
    if key_count(raw, raw[x].0) == 1 {
        nb == u32::MAX
    } else {
        exists|y: int| 0 <= y < raw.len() && y != x && raw[y].0 == raw[x].0 && nb == raw[y].1.0
    }
}

/// `nbrs` is a dual graph of the triangles `ind`.
pub open spec fn is_dual_graph(ind: Seq<u32>, nbrs: Seq<[u32; 3]>) -> bool {
    &&& nbrs.len() == ind.len() / 3
    &&& forall|t: int, e: int| 0 <= t < nbrs.len() && 0 <= e < 3 ==> across(side_records(ind), 3 * t + e, #[trigger] nbrs[t][e])
}

pub(crate) proof fn lemma_side_of(ind: Seq<u32>, x: int)
    requires
        0 <= x < side_records(ind).len(),
        ind.len() / 3 <= u32::MAX + 1,
    ensures
        side_of(side_records(ind)[x]) == x,
        0 <= side_records(ind)[x].1.1 < 3,
{
    let nt = ind.len() / 3;
    assert(0 <= x / 3 < nt) by (nonlinear_arith)
        requires
            0 <= x < 3 * nt,
    ;
    assert(3 * (x / 3) + x % 3 == x) by (nonlinear_arith);
}

fn collect_sides(indices: &[u32]) -> (raw: Vec<SideRecord>)
    requires
        indices@.len() / 3 <= u32::MAX + 1,
    ensures
        raw@ == side_records(indices@),
{
    let len = indices.len();
    let nt = len / 3;
    let ghost all = side_records(indices@);
    let mut raw: Vec<SideRecord> = Vec::new();
    let mut t: usize = 0;
    while t < nt
        invariant
            len == indices@.len(),
            t <= nt,
            nt == indices@.len() / 3,
            nt <= u32::MAX + 1,
            all == side_records(indices@),
            raw@ == all.take(3 * t),
        decreases nt - t,
    {
        assert(3 * t + 2 < indices@.len()) by (nonlinear_arith)
            requires
                t < nt,
                nt == indices@.len() / 3,
        ;
        let b = 3 * t;
        let i0 = indices[b];
        let i1 = indices[b + 1];
        let i2 = indices[b + 2];
        let tt = t as u32;
        let k0 = super::boundary::key_code_exec(i0, i1);
        let k1 = super::boundary::key_code_exec(i1, i2);
        let k2 = super::boundary::key_code_exec(i2, i0);
        raw.push((k0, (tt, 0u8)));
        raw.push((k1, (tt, 1u8)));
        raw.push((k2, (tt, 2u8)));
        proof {
            assert forall|x: int| 3 * t <= x < 3 * t + 3 implies x / 3 == t && #[trigger] (x % 3) == x - 3 * t by {
            }
            assert(raw@ =~= all.take(3 * t + 3));
        }
        t += 1;
    }
    assert(all.take(3 * nt) =~= all);
    raw
}

impl MeshTopology {
    /// Builds the dual graph of the triangles `indices` (three per triangle).
    /// A side shared by exactly two triangles links them; a side of one
    /// triangle is open; the sides of a non-manifold edge are linked in a
    /// cycle.
    pub fn build(indices: &[u32]) -> (r: Self)
        requires
            indices@.len() / 3 <= u32::MAX + 1,
        ensures
            is_dual_graph(indices@, r.neighbors@),
    {
        let ghost ind = indices@;
        let ghost all = side_records(ind);
        let len = indices.len();
        let nt = len / 3;
        assert(3 * nt <= len) by (nonlinear_arith)
            requires
                nt == len / 3,
        ;
        let mut raw = collect_sides(indices);
        par_sort_by_key(&mut raw);
        let ghost s = raw@;
        proof {
            lemma_sides_sorted(ind, s);
        }
        let mut flat: Vec<u32> = Vec::new();
        let mut z: usize = 0;
        while z < 3 * nt
            invariant
                nt == ind.len() / 3,
                3 * nt <= len,
                z <= 3 * nt,
                flat@ == Seq::new(z as nat, |x: int| u32::MAX),
            decreases 3 * nt - z,
        {
            flat.push(u32::MAX);
            z += 1;
            assert(flat@ =~= Seq::new(z as nat, |x: int| u32::MAX));
        }
        let n = raw.len();
        let mut i: usize = 0;
        while i < n
            invariant
                n == raw@.len() == 3 * nt,
                3 * nt <= len,
                nt == ind.len() / 3,
                nt <= u32::MAX + 1,
                s == raw@,
                all == side_records(ind),
                s.to_multiset() == all.to_multiset(),
                sorted_by_key(s),
                forall|x: int| 0 <= x < n ==> 0 <= #[trigger] side_of(s[x]) < 3 * nt && s[x].1.1 < 3,
                forall|x: int, y: int| 0 <= x < n && 0 <= y < n && x != y ==> side_of(#[trigger] s[x]) != side_of(#[trigger] s[y]),
                flat@.len() == 3 * nt,
                i <= n,
                0 < i < n ==> s[i - 1].0 != s[i as int].0,
                forall|x: int| #![trigger s[x]] 0 <= x < i ==> across_sorted(s, x, flat@[side_of(s[x])]),
                forall|x: int| #![trigger s[x]] i <= x < n ==> flat@[side_of(s[x])] == u32::MAX,
            decreases n - i,
        {
            let k = raw[i].0;
            let mut j = i + 1;
            while j < n && raw[j].0 == k
                invariant
                    i < j <= n,
                    n == raw@.len(),
                    k == s[i as int].0,
                    s == raw@,
                    forall|x: int| i <= x < j ==> (#[trigger] s[x]).0 == k,
                decreases n - j,
            {
                j += 1;
            }
            proof {
                lemma_block_count(s, i as int, j as int, k);
            }
            link_block(&raw, &mut flat, i, j, n, Ghost(s), Ghost(nt as int));
            i = j;
        }
        proof {
            assert forall|key: u64| key_count(s, key) == key_count(all, key) by {
                lemma_perm_filter_len(s, all, with_key::<(u32, u8)>(key));
            }
        }
        // Rows of three.
        let mut neighbors: Vec<[u32; 3]> = Vec::new();
        let mut t: usize = 0;
        while t < nt
            invariant
                t <= nt,
                nt == ind.len() / 3,
                3 * nt <= len,
                nt <= u32::MAX + 1,
                flat@.len() == 3 * nt,
                s == raw@,
                all == side_records(ind),
                s.to_multiset() == all.to_multiset(),
                forall|key: u64| key_count(s, key) == key_count(all, key),
                forall|x: int| #![trigger s[x]] 0 <= x < 3 * nt ==> across_sorted(s, x, flat@[side_of(s[x])]),
                neighbors@.len() == t,
                forall|u: int, e: int| 0 <= u < t && 0 <= e < 3 ==> #[trigger] neighbors@[u][e] == flat@[3 * u + e],
            decreases nt - t,
        {
            let b = 3 * t;
            let row = [flat[b], flat[b + 1], flat[b + 2]];
            neighbors.push(row);
            t += 1;
        }
        proof {
            assert forall|u: int, e: int| 0 <= u < neighbors@.len() && 0 <= e < 3 implies across(all, 3 * u + e, #[trigger] neighbors@[u][e]) by {
                let x = 3 * u + e;
                lemma_side_of(ind, x);
                assert(all.contains(all[x]));
                assert(s.to_multiset().count(all[x]) > 0);
                let g = choose|g: int| 0 <= g < s.len() && s[g] == all[x];
                assert(s[g] == all[x]);
                assert(side_of(s[g]) == x);
                lemma_across_sorted(ind, s, g, neighbors@[u][e]);
            }
        }
        MeshTopology { neighbors }
    }

    pub fn triangle_count(&self) -> (n: usize)
        ensures
            n == self.neighbors@.len(),
    {
        self.neighbors.len()
    }
}

/// `nb` is what the dual graph holds across the side `s[x]` of the sorted
/// sides `s`.
pub open spec fn across_sorted(s: Seq<SideRecord>, x: int, nb: u32) -> bool {
    if key_count(s, s[x].0) == 1 {
        nb == u32::MAX
    } else {
        exists|y: int| 0 <= y < s.len() && y != x && s[y].0 == s[x].0 && nb == s[y].1.0
    }
}

/// The sides of the triangles, however ordered, sit at different places.
proof fn lemma_sides_sorted(ind: Seq<u32>, s: Seq<SideRecord>)
    requires
        ind.len() / 3 <= u32::MAX + 1,
        s.to_multiset() == side_records(ind).to_multiset(),
    ensures
        s.len() == 3 * (ind.len() / 3),
        forall|x: int| 0 <= x < s.len() ==> 0 <= #[trigger] side_of(s[x]) < s.len() && s[x].1.1 < 3,
        forall|x: int, y: int| 0 <= x < s.len() && 0 <= y < s.len() && x != y ==> side_of(#[trigger] s[x]) != side_of(#[trigger] s[y]),
{
    let all = side_records(ind);
    assert(s.len() == all.len()) by {
        assert(s.len() == s.to_multiset().len());
        assert(all.len() == all.to_multiset().len());
    }
    assert forall|x: int| 0 <= x < s.len() implies 0 <= #[trigger] side_of(s[x]) < s.len() && s[x].1.1 < 3 && all[side_of(s[x])] == s[x] by {
        assert(s.contains(s[x]));
        assert(all.to_multiset().count(s[x]) > 0);
        let y = choose|y: int| 0 <= y < all.len() && all[y] == s[x];
        lemma_side_of(ind, y);
    }
    assert forall|x: int, y: int| 0 <= x < s.len() && 0 <= y < s.len() && x != y implies side_of(#[trigger] s[x]) != side_of(#[trigger] s[y]) by {
        if side_of(s[x]) == side_of(s[y]) {
            // The same record twice: but every record occurs once.
            assert(s[x] == s[y]);
            lemma_records_once(ind, s, x, y);
            assert(false);
        }
    }
}

/// Every side record occurs once.
proof fn lemma_records_once(ind: Seq<u32>, s: Seq<SideRecord>, x: int, y: int)
    requires
        ind.len() / 3 <= u32::MAX + 1,
        s.to_multiset() == side_records(ind).to_multiset(),
        0 <= x < s.len(),
        0 <= y < s.len(),
        s[x] == s[y],
    ensures
        x == y,
{
    if x == y {
        return;
    }
    let all = side_records(ind);
    let v = s[x];
    // Two copies in `s`.
    let s2 = s.remove(x);
    assert(s2.to_multiset() =~= s.to_multiset().remove(v));
    let y2 = if y < x {
        y
    } else {
        y - 1
    };
    assert(s2[y2] == v);
    assert(s2.contains(v));
    assert(s2.to_multiset().count(v) > 0);
    assert(s.to_multiset().count(v) >= 2);
    // One copy in `all`.
    assert(s.contains(v));
    assert(all.to_multiset().count(v) > 0);
    assert(all.contains(v));
    let w = choose|w: int| 0 <= w < all.len() && all[w] == v;
    lemma_side_of(ind, w);
    let a2 = all.remove(w);
    assert(a2.to_multiset() =~= all.to_multiset().remove(v));
    assert(!a2.contains(v)) by {
        if a2.contains(v) {
            let q = choose|q: int| 0 <= q < a2.len() && a2[q] == v;
            let q0 = if q < w {
                q
            } else {
                q + 1
            };
            assert(all[q0] == v);
            lemma_side_of(ind, q0);
        }
    }
    assert(a2.to_multiset().count(v) == 0);
    assert(all.to_multiset().count(v) <= 1);
}

proof fn lemma_across_sorted(ind: Seq<u32>, s: Seq<SideRecord>, g: int, nb: u32)
    requires
        ind.len() / 3 <= u32::MAX + 1,
        s.to_multiset() == side_records(ind).to_multiset(),
        forall|key: u64| key_count(s, key) == key_count(side_records(ind), key),
        0 <= g < s.len(),
        across_sorted(s, g, nb),
    ensures
        across(side_records(ind), side_of(s[g]), nb),
{
    let all = side_records(ind);
    lemma_sides_sorted(ind, s);
    assert forall|x: int| 0 <= x < s.len() implies all[side_of(s[x])] == #[trigger] s[x] by {
        assert(s.contains(s[x]));
        assert(all.to_multiset().count(s[x]) > 0);
        let y = choose|y: int| 0 <= y < all.len() && all[y] == s[x];
        lemma_side_of(ind, y);
    }
    let x = side_of(s[g]);
    if key_count(s, s[g].0) != 1 {
        let y = choose|y: int| 0 <= y < s.len() && y != g && s[y].0 == s[g].0 && nb == s[y].1.0;
        let w = side_of(s[y]);
        assert(all[w] == s[y]);
        assert(w != x);
    }
}

/// Links the sides of the block `[i, j)` of one key: a side alone stays
/// open; two sides point at each other; more are linked in a cycle.
fn link_block(raw: &Vec<SideRecord>, flat: &mut Vec<u32>, i: usize, j: usize, n: usize, Ghost(s): Ghost<Seq<SideRecord>>, Ghost(nt): Ghost<int>)
    requires
        s == raw@,
        n == 3 * nt,
        0 <= i < j <= raw@.len(),
        raw@.len() == 3 * nt,
        old(flat)@.len() == 3 * nt,
        key_count(s, s[i as int].0) == j - i,
        forall|x: int| i <= x < j ==> (#[trigger] s[x]).0 == s[i as int].0,
        forall|x: int| 0 <= x < s.len() ==> 0 <= #[trigger] side_of(s[x]) < 3 * nt && s[x].1.1 < 3,
        forall|x: int, y: int| 0 <= x < s.len() && 0 <= y < s.len() && x != y ==> side_of(#[trigger] s[x]) != side_of(#[trigger] s[y]),
        forall|x: int| #![trigger s[x]] i <= x < s.len() ==> old(flat)@[side_of(s[x])] == u32::MAX,
    ensures
        final(flat)@.len() == 3 * nt,
        forall|x: int| #![trigger s[x]] i <= x < j ==> across_sorted(s, x, final(flat)@[side_of(s[x])]),
        forall|p: int| 0 <= p < 3 * nt && !(exists|x: int| i <= x < j && side_of(s[x]) == p) ==> final(flat)@[p] == old(flat)@[p],
{
    if j - i == 2 {
        let (_, (t0, e0)) = raw[i];
        let (_, (t1, e1)) = raw[i + 1];
        let p0 = 3 * (t0 as usize) + e0 as usize;
        let p1 = 3 * (t1 as usize) + e1 as usize;
        assert(p0 == side_of(s[i as int]));
        assert(p1 == side_of(s[i + 1]));
        flat.set(p0, t1);
        flat.set(p1, t0);
        proof {
            assert(across_sorted(s, i as int, flat@[p0 as int]));
            assert(across_sorted(s, i + 1, flat@[p1 as int]));
        }
    } else if j - i > 2 {
        let mut k = i;
        while k < j
            invariant
                s == raw@,
                n == 3 * nt,
                i <= k <= j,
                j - i > 2,
                j <= raw@.len(),
                raw@.len() == 3 * nt,
                flat@.len() == 3 * nt,
                key_count(s, s[i as int].0) == j - i,
                forall|x: int| i <= x < j ==> (#[trigger] s[x]).0 == s[i as int].0,
                forall|x: int| 0 <= x < s.len() ==> 0 <= #[trigger] side_of(s[x]) < 3 * nt && s[x].1.1 < 3,
                forall|x: int, y: int| 0 <= x < s.len() && 0 <= y < s.len() && x != y ==> side_of(#[trigger] s[x]) != side_of(#[trigger] s[y]),
                forall|x: int| #![trigger s[x]] i <= x < k ==> across_sorted(s, x, flat@[side_of(s[x])]),
                forall|p: int| 0 <= p < 3 * nt && !(exists|x: int| i <= x < k && side_of(s[x]) == p) ==> flat@[p] == old(flat)@[p],
            decreases j - k,
        {
            let next = if k + 1 < j {
                k + 1
            } else {
                i
            };
            let (_, (t0, e0)) = raw[k];
            let (_, (t1, _)) = raw[next];
            let p0 = 3 * (t0 as usize) + e0 as usize;
            assert(p0 == side_of(s[k as int]));
            let ghost before = flat@;
            flat.set(p0, t1);
            proof {
                assert(across_sorted(s, k as int, flat@[p0 as int]));
                assert forall|x: int| #![trigger s[x]] i <= x < k + 1 implies across_sorted(s, x, flat@[side_of(s[x])]) by {
                    if x < k {
                        assert(side_of(s[x]) != side_of(s[k as int]));
                    }
                }
                assert forall|p: int| 0 <= p < 3 * nt && !(exists|x: int| i <= x < k + 1 && side_of(s[x]) == p) implies flat@[p] == old(flat)@[p] by {
                    assert(p != p0);
                }
            }
            k += 1;
        }
    }
}

/// The selection without its triangles that have an open edge or an
/// unselected neighbour.
pub open spec fn shrunk(nbrs: Seq<[u32; 3]>, sel: Seq<u8>) -> Seq<u8> {
    if sel.len() != nbrs.len() {
        sel
    } else {
        Seq::new(
            sel.len(),
            |t: int|
                if sel[t] > 0 && exists|e: int| 0 <= e < 3 && (nbrs[t][e] == u32::MAX || sel[nbrs[t][e] as int] == 0) {
                    0u8
                } else {
                    sel[t]
                },
        )
    }
}

/// Shrinks the current selection by 1 ring of triangles along the selection
/// boundary. Any selected triangle adjacent to an unselected triangle or an
/// open mesh edge is deselected.
pub fn shrink_selection(topo: &MeshTopology, current_sel: &[u8]) -> (r: Vec<u8>)
    requires
        forall|t: int, e: int| 0 <= t < topo.neighbors@.len() && 0 <= e < 3 ==> (#[trigger] topo.neighbors@[t][e]) == u32::MAX
            || topo.neighbors@[t][e] < topo.neighbors@.len(),
    ensures
        r@ == shrunk(topo.neighbors@, current_sel@),
{
    let nt = topo.triangle_count();
    let mut next: Vec<u8> = Vec::new();
    let mut t: usize = 0;
    while t < current_sel.len()
        invariant
            t <= current_sel@.len(),
            next@ == current_sel@.take(t as int),
        decreases current_sel@.len() - t,
    {
        next.push(current_sel[t]);
        t += 1;
        assert(next@ =~= current_sel@.take(t as int));
    }
    assert(current_sel@.take(current_sel@.len() as int) =~= current_sel@);
    if current_sel.len() != nt {
        return next;
    }
    let ghost nb = topo.neighbors@;
    let mut t: usize = 0;
    while t < nt
        invariant
            nt == nb.len() == current_sel@.len(),
            nb == topo.neighbors@,
            t <= nt,
            next@.len() == nt,
            forall|u: int, e: int| 0 <= u < nb.len() && 0 <= e < 3 ==> (#[trigger] nb[u][e]) == u32::MAX || nb[u][e] < nb.len(),
            forall|u: int| 0 <= u < nt ==> #[trigger] next@[u] == if u < t {
                shrunk(nb, current_sel@)[u]
            } else {
                current_sel@[u]
            },
        decreases nt - t,
    {
        if current_sel[t] > 0 {
            let row = topo.neighbors[t];
            let mut is_boundary = false;
            let mut e: usize = 0;
            while e < 3
                invariant
                    e <= 3,
                    row == nb[t as int],
                    nt == current_sel@.len() == nb.len(),
                    forall|f: int| 0 <= f < 3 ==> (#[trigger] row[f]) == u32::MAX || row[f] < nt,
                    is_boundary == exists|f: int| 0 <= f < e && (row[f] == u32::MAX || current_sel@[row[f] as int] == 0),
                decreases 3 - e,
            {
                let b = row[e];
                if b == u32::MAX || current_sel[b as usize] == 0 {
                    is_boundary = true;
                }
                e += 1;
            }
            if is_boundary {
                next.set(t, 0);
            }
        }
        t += 1;
    }
    assert(next@ =~= shrunk(nb, current_sel@));
    next
}

/// The selection with every unselected triangle added that has a selected
/// neighbour across an edge marked passable (the caller marks an edge
/// passable where the dihedral angle across it is within its threshold).
pub open spec fn grown(nbrs: Seq<[u32; 3]>, sel: Seq<u8>, passable: Seq<[bool; 3]>) -> Seq<u8> {
    if sel.len() != nbrs.len() {
        sel
    } else {
        Seq::new(
            sel.len(),
            |t: int|
                if sel[t] == 0 && exists|e: int|
                    0 <= e < 3 && nbrs[t][e] != u32::MAX && sel[nbrs[t][e] as int] > 0 && passable[t][e] {
                    1u8
                } else {
                    sel[t]
                },
        )
    }
}

/// Expands the current selection by one ring of adjacent triangles across
/// shared edges, crossing only the edges that `passable` marks.
pub fn grow_selection(topo: &MeshTopology, current_sel: &[u8], passable: &[[bool; 3]]) -> (r: Vec<u8>)
    requires
        passable@.len() == topo.neighbors@.len(),
        forall|t: int, e: int| 0 <= t < topo.neighbors@.len() && 0 <= e < 3 ==> (#[trigger] topo.neighbors@[t][e]) == u32::MAX
            || topo.neighbors@[t][e] < topo.neighbors@.len(),
    ensures
        r@ == grown(topo.neighbors@, current_sel@, passable@),
{
    let nt = topo.triangle_count();
    let mut next: Vec<u8> = Vec::new();
    let mut t: usize = 0;
    while t < current_sel.len()
        invariant
            t <= current_sel@.len(),
            next@ == current_sel@.take(t as int),
        decreases current_sel@.len() - t,
    {
        next.push(current_sel[t]);
        t += 1;
        assert(next@ =~= current_sel@.take(t as int));
    }
    assert(current_sel@.take(current_sel@.len() as int) =~= current_sel@);
    if current_sel.len() != nt {
        return next;
    }
    let ghost nb = topo.neighbors@;
    let mut t: usize = 0;
    while t < nt
        invariant
            nt == nb.len() == current_sel@.len() == passable@.len(),
            nb == topo.neighbors@,
            t <= nt,
            next@.len() == nt,
            forall|u: int, e: int| 0 <= u < nb.len() && 0 <= e < 3 ==> (#[trigger] nb[u][e]) == u32::MAX || nb[u][e] < nb.len(),
            forall|u: int| 0 <= u < nt ==> #[trigger] next@[u] == if u < t {
                grown(nb, current_sel@, passable@)[u]
            } else {
                current_sel@[u]
            },
        decreases nt - t,
    {
        if current_sel[t] == 0 {
            let row = topo.neighbors[t];
            let pass = passable[t];
            let mut reached = false;
            let mut e: usize = 0;
            while e < 3
                invariant
                    e <= 3,
                    row == nb[t as int],
                    pass == passable@[t as int],
                    nt == current_sel@.len() == nb.len(),
                    forall|f: int| 0 <= f < 3 ==> (#[trigger] row[f]) == u32::MAX || row[f] < nt,
                    reached == exists|f: int| 0 <= f < e && row[f] != u32::MAX && current_sel@[row[f] as int] > 0 && pass[f],
                decreases 3 - e,
            {
                let b = row[e];
                if b != u32::MAX && current_sel[b as usize] > 0 && pass[e] {
                    reached = true;
                }
                e += 1;
            }
            if reached {
                next.set(t, 1);
            }
        }
        t += 1;
    }
    assert(next@ =~= grown(nb, current_sel@, passable@));
    next
}

/// Growing never deselects a triangle: every selected entry stays, and an
/// entry that changes becomes 1.
pub proof fn lemma_grow_only_selects(nbrs: Seq<[u32; 3]>, sel: Seq<u8>, passable: Seq<[bool; 3]>)
    ensures
        grown(nbrs, sel, passable).len() == sel.len(),
        forall|t: int| 0 <= t < sel.len() ==> #[trigger] grown(nbrs, sel, passable)[t] == sel[t] || (sel[t] == 0
            && grown(nbrs, sel, passable)[t] == 1),
{
}

/// Shrinking never selects a triangle: every entry stays or becomes 0.
pub proof fn lemma_shrink_only_deselects(nbrs: Seq<[u32; 3]>, sel: Seq<u8>)
    ensures
        shrunk(nbrs, sel).len() == sel.len(),
        forall|t: int| 0 <= t < sel.len() ==> #[trigger] shrunk(nbrs, sel)[t] == sel[t] || shrunk(nbrs, sel)[t] == 0,
{
}

/// Two records of a key counted twice are the only ones with that key.
pub(crate) proof fn lemma_two_of_key(ind: Seq<u32>, x: int, y: int, z: int)
    requires
        ind.len() / 3 <= u32::MAX + 1,
        0 <= x < side_records(ind).len(),
        0 <= y < side_records(ind).len(),
        0 <= z < side_records(ind).len(),
        x != y,
        z != y,
        side_records(ind)[x].0 == side_records(ind)[y].0,
        side_records(ind)[z].0 == side_records(ind)[y].0,
        key_count(side_records(ind), side_records(ind)[x].0) == 2,
    ensures
        z == x,
{
    let raw = side_records(ind);
    let p = with_key::<(u32, u8)>(raw[x].0);
    let f = raw.filter(p);
    raw.lemma_filter_contains(p, x);
    raw.lemma_filter_contains(p, y);
    raw.lemma_filter_contains(p, z);
    lemma_side_of(ind, x);
    lemma_side_of(ind, y);
    lemma_side_of(ind, z);
    assert(raw[x] != raw[y]);
    assert(raw[z] != raw[y]);
    if z != x {
        assert(raw[z] != raw[x]);
        let ix = choose|i: int| 0 <= i < f.len() && f[i] == raw[x];
        let iy = choose|i: int| 0 <= i < f.len() && f[i] == raw[y];
        let iz = choose|i: int| 0 <= i < f.len() && f[i] == raw[z];
        assert(false);
    }
}

/// Across an edge of exactly two triangle sides, each side sees the
/// triangle of the other: the dual graph is symmetric on manifold edges.
pub proof fn lemma_dual_graph_symmetric(ind: Seq<u32>, nbrs: Seq<[u32; 3]>, t: int, e: int)
    requires
        ind.len() / 3 <= u32::MAX + 1,
        is_dual_graph(ind, nbrs),
        0 <= t < nbrs.len(),
        0 <= e < 3,
        key_count(side_records(ind), side_records(ind)[3 * t + e].0) == 2,
    ensures
        (nbrs[t][e] as int) < nbrs.len(),
        exists|e2: int| 0 <= e2 < 3 && nbrs[nbrs[t][e] as int][e2] == t,
{
    let raw = side_records(ind);
    let x = 3 * t + e;
    assert(0 <= x < raw.len()) by (nonlinear_arith)
        requires
            0 <= t < nbrs.len(),
            nbrs.len() == ind.len() / 3,
            raw.len() == 3 * (ind.len() / 3),
            0 <= e < 3,
            x == 3 * t + e,
    ;
    assert(across(raw, x, nbrs[t][e]));
    let y = choose|y: int| 0 <= y < raw.len() && y != x && raw[y].0 == raw[x].0 && nbrs[t][e] == raw[y].1.0;
    lemma_side_of(ind, y);
    lemma_side_of(ind, x);
    let u = raw[y].1.0 as int;
    let e2 = raw[y].1.1 as int;
    assert(y == 3 * u + e2);
    assert(0 <= u < nbrs.len()) by (nonlinear_arith)
        requires
            y == 3 * u + e2,
            0 <= e2 < 3,
            0 <= y < raw.len(),
            raw.len() == 3 * nbrs.len(),
    ;
    assert(across(raw, y, nbrs[u][e2]));
    let z = choose|z: int| 0 <= z < raw.len() && z != y && raw[z].0 == raw[y].0 && nbrs[u][e2] == raw[z].1.0;
    lemma_two_of_key(ind, x, y, z);
    assert(raw[x].1.0 == t) by {
        assert(x / 3 == t);
    }
}

/// Side `x` is one of exactly two sides on its edge.
pub open spec fn paired(ind: Seq<u32>, x: int) -> bool {
    key_count(side_records(ind), side_records(ind)[x].0) == 2
}

/// For every triangle side, whether exactly two sides lie on its edge.
pub fn paired_sides(indices: &[u32]) -> (flags: Vec<bool>)
    requires
        indices@.len() / 3 <= u32::MAX + 1,
    ensures
        flags@.len() == 3 * (indices@.len() / 3),
        forall|x: int| 0 <= x < flags@.len() ==> #[trigger] flags@[x] == paired(indices@, x),
{
    let ghost ind = indices@;
    let ghost all = side_records(ind);
    let len = indices.len();
    let nt = len / 3;
    assert(3 * nt <= len) by (nonlinear_arith)
        requires
            nt == len / 3,
    ;
    let mut raw = collect_sides(indices);
    par_sort_by_key(&mut raw);
    let ghost s = raw@;
    proof {
        lemma_sides_sorted(ind, s);
    }
    let mut flags: Vec<bool> = Vec::new();
    let mut z: usize = 0;
    while z < 3 * nt
        invariant
            3 * nt <= len,
            z <= 3 * nt,
            flags@.len() == z,
        decreases 3 * nt - z,
    {
        flags.push(false);
        z += 1;
    }
    let n = raw.len();
    let mut i: usize = 0;
    while i < n
        invariant
            n == raw@.len() == 3 * nt,
            3 * nt <= len,
            s == raw@,
            sorted_by_key(s),
            forall|x: int| 0 <= x < n ==> 0 <= #[trigger] side_of(s[x]) < 3 * nt,
            forall|x: int, y: int| 0 <= x < n && 0 <= y < n && x != y ==> side_of(#[trigger] s[x]) != side_of(#[trigger] s[y]),
            flags@.len() == 3 * nt,
            i <= n,
            0 < i < n ==> s[i - 1].0 != s[i as int].0,
            forall|x: int| #![trigger s[x]] 0 <= x < i ==> flags@[side_of(s[x])] == (key_count(s, s[x].0) == 2),
        decreases n - i,
    {
        let k = raw[i].0;
        let mut j = i + 1;
        while j < n && raw[j].0 == k
            invariant
                i < j <= n,
                n == raw@.len(),
                k == s[i as int].0,
                s == raw@,
                forall|x: int| i <= x < j ==> (#[trigger] s[x]).0 == k,
            decreases n - j,
        {
            j += 1;
        }
        proof {
            lemma_block_count(s, i as int, j as int, k);
            if j < n {
                assert(s[i as int].0 <= s[j as int].0);
            }
        }
        let two = j - i == 2;
        let mut x = i;
        while x < j
            invariant
                i <= x <= j <= n,
                n == raw@.len() == 3 * nt,
                3 * nt <= len,
                s == raw@,
                forall|y: int| 0 <= y < n ==> 0 <= #[trigger] side_of(s[y]) < 3 * nt,
                forall|y: int, w: int| 0 <= y < n && 0 <= w < n && y != w ==> side_of(#[trigger] s[y]) != side_of(#[trigger] s[w]),
                flags@.len() == 3 * nt,
                forall|y: int| i <= y < j ==> (#[trigger] s[y]).0 == k,
                two == (key_count(s, k) == 2),
                forall|y: int| #![trigger s[y]] 0 <= y < i ==> flags@[side_of(s[y])] == (key_count(s, s[y].0) == 2),
                forall|y: int| #![trigger s[y]] i <= y < x ==> flags@[side_of(s[y])] == (key_count(s, s[y].0) == 2),
            decreases j - x,
        {
            let (_, (t, e)) = raw[x];
            assert(0 <= side_of(s[x as int]) < 3 * nt);
            let p = 3 * (t as usize) + e as usize;
            assert(p == side_of(s[x as int]));
            flags.set(p, two);
            proof {
                assert forall|y: int| #![trigger s[y]] 0 <= y < i implies flags@[side_of(s[y])] == (key_count(s, s[y].0) == 2) by {
                    assert(side_of(s[y]) != side_of(s[x as int]));
                }
                assert forall|y: int| #![trigger s[y]] i <= y < x + 1 implies flags@[side_of(s[y])] == (key_count(s, s[y].0) == 2) by {
                    if y < x {
                        assert(side_of(s[y]) != side_of(s[x as int]));
                    }
                }
            }
            x += 1;
        }
        i = j;
    }
    proof {
        assert forall|key: u64| key_count(s, key) == key_count(all, key) by {
            lemma_perm_filter_len(s, all, with_key::<(u32, u8)>(key));
        }
        assert forall|x: int| 0 <= x < flags@.len() implies #[trigger] flags@[x] == paired(ind, x) by {
            lemma_side_of(ind, x);
            assert(all.contains(all[x]));
            assert(s.to_multiset().count(all[x]) > 0);
            let g = choose|g: int| 0 <= g < s.len() && s[g] == all[x];
            assert(side_of(s[g]) == x);
        }
    }
    flags
}

/// The mesh is closed and two-manifold: it has indices, and every edge of
/// its triangles is shared by exactly two sides.
pub open spec fn is_watertight(ind: Seq<u32>) -> bool {
    ind.len() > 0 && forall|x: int| 0 <= x < 3 * (ind.len() / 3) ==> #[trigger] paired(ind, x)
}

/// Checks if a mesh is closed and 2-manifold watertight (every edge shared
/// by exactly two triangles).
pub fn check_mesh_watertight(indices: &[u32]) -> (r: bool)
    requires
        indices@.len() / 3 <= u32::MAX + 1,
    ensures
        r == is_watertight(indices@),
{
    if indices.len() == 0 {
        return false;
    }
    let flags = paired_sides(indices);
    let mut x: usize = 0;
    while x < flags.len()
        invariant
            flags@.len() == 3 * (indices@.len() / 3),
            forall|y: int| 0 <= y < flags@.len() ==> #[trigger] flags@[y] == paired(indices@, y),
            x <= flags@.len(),
            forall|y: int| 0 <= y < x ==> #[trigger] paired(indices@, y),
        decreases flags@.len() - x,
    {
        if !flags[x] {
            return false;
        }
        x += 1;
    }
    true
}

} // verus!
