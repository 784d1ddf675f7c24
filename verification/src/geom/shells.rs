//! Shells: the pieces of a mesh that hang together across edges shared by
//! exactly two triangles, found breadth first; and removing small ones.
use vstd::prelude::*;
use crate::graph::{count_true, lemma_count_bound, lemma_count_update, lists};
use super::boundary::{key_code, key_code_exec, tri_edge};
use super::cleanup::compact_indices;
use crate::numbering::{first_uses, lemma_first_uses_len};
use super::topology::{across, is_dual_graph, lemma_side_of, lemma_two_of_key, paired, paired_sides, side_records, MeshTopology};

verus! {

/// Every neighbour is a node.
pub open spec fn rows_ok(rows: Seq<Seq<u32>>) -> bool {
    forall|t: int, k: int| 0 <= t < rows.len() && 0 <= k < rows[t].len() ==> #[trigger] rows[t][k] < rows.len()
}

/// One neighbour list scanned: each neighbour not seen yet is marked and
/// found.
pub open spec fn visit_row(row: Seq<u32>, seen: Seq<bool>, found: Seq<u32>) -> (Seq<bool>, Seq<u32>)
    decreases row.len(),
{
    if row.len() == 0 {
        (seen, found)
    } else {
        let (s2, f2) = visit_row(row.drop_last(), seen, found);
        let v = row.last();
        if s2[v as int] {
            (s2, f2)
        } else {
            (s2.update(v as int, true), f2.push(v))
        }
    }
}

/// Breadth-first search: the nodes found from `head` on are expanded in
/// turn (at most `fuel` of them).
pub open spec fn bfs(rows: Seq<Seq<u32>>, seen: Seq<bool>, found: Seq<u32>, head: int, fuel: nat) -> (Seq<bool>, Seq<u32>)
    decreases fuel,
{
    if fuel == 0 || head < 0 || head >= found.len() {
        (seen, found)
    } else {
        let (s2, f2) = visit_row(rows[found[head] as int], seen, found);
        bfs(rows, s2, f2, head + 1, (fuel - 1) as nat)
    }
}

/// The shell found from node `t`: `t`, then the nodes reached from it in
/// breadth-first order.
pub open spec fn shell_from(rows: Seq<Seq<u32>>, seen: Seq<bool>, t: int) -> (Seq<bool>, Seq<u32>) {
    bfs(rows, seen.update(t, true), seq![t as u32], 0, (rows.len() + 1) as nat)
}

/// The shells found among the first `k` nodes, each started at its first
/// node not found before.
pub open spec fn shells_upto(rows: Seq<Seq<u32>>, k: int) -> (Seq<bool>, Seq<Seq<u32>>)
    decreases k,
{
    if k <= 0 {
        (Seq::new(rows.len(), |i: int| false), Seq::empty())
    } else {
        let (seen, cs) = shells_upto(rows, k - 1);
        if seen[k - 1] {
            (seen, cs)
        } else {
            let (s2, c) = shell_from(rows, seen, k - 1);
            (s2, cs.push(c))
        }
    }
}

/// The shells of the graph, in the order of their first nodes.
pub open spec fn shells(rows: Seq<Seq<u32>>) -> Seq<Seq<u32>> {
    shells_upto(rows, rows.len() as int).1
}

/// Expands node `cur`: scans its neighbour list.
fn expand(rows: &Vec<Vec<u32>>, cur: usize, seen: &mut Vec<bool>, found: &mut Vec<u32>)
    requires
        cur < rows@.len(),
        rows_ok(lists(rows@)),
        old(seen)@.len() == rows@.len(),
    ensures
        (final(seen)@, final(found)@) == visit_row(rows@[cur as int]@, old(seen)@, old(found)@),
        final(seen)@.len() == rows@.len(),
        count_true(final(seen)@) - count_true(old(seen)@) == final(found)@.len() - old(found)@.len(),
        final(found)@.len() >= old(found)@.len(),
        final(found)@.take(old(found)@.len() as int) == old(found)@,
        forall|k: int| old(found)@.len() <= k < final(found)@.len() ==> (#[trigger] final(found)@[k]) < rows@.len(),
{
    let ghost row = rows@[cur as int]@;
    let ghost s0 = seen@;
    let ghost f0 = found@;
    let n = rows[cur].len();
    let mut k: usize = 0;
    while k < n
        invariant
            cur < rows@.len(),
            rows_ok(lists(rows@)),
            row == rows@[cur as int]@,
            n == row.len(),
            k <= n,
            seen@.len() == rows@.len(),
            (seen@, found@) == visit_row(row.take(k as int), s0, f0),
            count_true(seen@) - count_true(s0) == found@.len() - f0.len(),
            found@.len() >= f0.len(),
            found@.take(f0.len() as int) == f0,
            forall|q: int| f0.len() <= q < found@.len() ==> (#[trigger] found@[q]) < rows@.len(),
        decreases n - k,
    {
        let v = rows[cur][k];
        proof {
            assert(lists(rows@)[cur as int] == row);
            assert(row[k as int] < rows@.len());
            assert(row.take(k + 1).drop_last() =~= row.take(k as int));
        }
        if !seen[v as usize] {
            proof {
                lemma_count_update(seen@, v as int);
            }
            seen.set(v as usize, true);
            found.push(v);
        }
        k += 1;
        assert(found@.take(f0.len() as int) =~= f0);
    }
    assert(row.take(n as int) =~= row);
}

/// Finds the shell of node `t`, not seen yet.
fn shell_exec(rows: &Vec<Vec<u32>>, seen: &mut Vec<bool>, t: usize) -> (c: Vec<u32>)
    requires
        t < rows@.len(),
        rows@.len() <= u32::MAX,
        rows_ok(lists(rows@)),
        old(seen)@.len() == rows@.len(),
        !old(seen)@[t as int],
    ensures
        (final(seen)@, c@) == shell_from(lists(rows@), old(seen)@, t as int),
        final(seen)@.len() == rows@.len(),
        1 <= c@.len() <= rows@.len(),
        forall|k: int| 0 <= k < c@.len() ==> (#[trigger] c@[k]) < rows@.len(),
{
    let ghost g = lists(rows@);
    let ghost fuel0 = (rows@.len() + 1) as nat;
    let ghost target = shell_from(g, old(seen)@, t as int);
    proof {
        lemma_count_update(seen@, t as int);
    }
    seen.set(t, true);
    let mut found: Vec<u32> = Vec::new();
    found.push(t as u32);
    let ghost base = count_true(seen@) - 1;
    let mut head: usize = 0;
    while head < found.len()
        invariant
            g == lists(rows@),
            rows_ok(g),
            rows@.len() <= u32::MAX,
            seen@.len() == rows@.len(),
            head <= found@.len(),
            found@.len() >= 1,
            count_true(seen@) - base == found@.len(),
            base >= 0,
            forall|k: int| 0 <= k < found@.len() ==> (#[trigger] found@[k]) < rows@.len(),
            bfs(g, seen@, found@, head as int, (fuel0 - head) as nat) == target,
            head <= fuel0,
            fuel0 == rows@.len() + 1,
        decreases rows@.len() + 1 - head,
    {
        proof {
            lemma_count_bound(seen@);
            assert(head < rows@.len());
        }
        let cur = found[head] as usize;
        let ghost f_before = found@;
        let ghost s_before = seen@;
        expand(rows, cur, seen, &mut found);
        proof {
            assert(g[cur as int] == rows@[cur as int]@);
            assert forall|k: int| 0 <= k < found@.len() implies (#[trigger] found@[k]) < rows@.len() by {
                if k < f_before.len() {
                    assert(found@[k] == found@.take(f_before.len() as int)[k]);
                }
            }
            assert(bfs(g, s_before, f_before, head as int, (fuel0 - head) as nat) == bfs(
                g,
                seen@,
                found@,
                head + 1,
                (fuel0 - head - 1) as nat,
            ));
        }
        head += 1;
    }
    proof {
        lemma_count_bound(seen@);
    }
    found
}

/// The shells of a graph, found breadth first from the lowest node not yet
/// reached, each listing its nodes in the order they are found.
pub fn find_shells(rows: &Vec<Vec<u32>>) -> (cs: Vec<Vec<u32>>)
    requires
        rows@.len() <= u32::MAX,
        rows_ok(lists(rows@)),
    ensures
        cs.deep_view() == shells(lists(rows@)),
        forall|c: int| 0 <= c < cs@.len() ==> 1 <= (#[trigger] cs@[c])@.len() <= rows@.len(),
        forall|c: int, k: int| 0 <= c < cs@.len() && 0 <= k < cs@[c]@.len() ==> #[trigger] cs@[c]@[k] < rows@.len(),
{
    let ghost g = lists(rows@);
    let n = rows.len();
    let mut seen: Vec<bool> = Vec::new();
    let mut z: usize = 0;
    while z < n
        invariant
            z <= n,
            seen@ == Seq::new(z as nat, |i: int| false),
        decreases n - z,
    {
        seen.push(false);
        z += 1;
        assert(seen@ =~= Seq::new(z as nat, |i: int| false));
    }
    let mut cs: Vec<Vec<u32>> = Vec::new();
    assert(cs.deep_view() =~= Seq::<Seq<u32>>::empty());
    let mut t: usize = 0;
    while t < n
        invariant
            g == lists(rows@),
            rows_ok(g),
            n == rows@.len() <= u32::MAX,
            t <= n,
            (seen@, cs.deep_view()) == shells_upto(g, t as int),
            seen@.len() == n,
            forall|c: int| 0 <= c < cs@.len() ==> 1 <= (#[trigger] cs@[c])@.len() <= n,
            forall|c: int, k: int| 0 <= c < cs@.len() && 0 <= k < cs@[c]@.len() ==> #[trigger] cs@[c]@[k] < n,
        decreases n - t,
    {
        if !seen[t] {
            let c = shell_exec(rows, &mut seen, t);
            let ghost before = cs.deep_view();
            let ghost old_cs = cs@;
            assert(c.deep_view() =~= c@);
            cs.push(c);
            proof {
                assert forall|q: int| 0 <= q < before.len() implies #[trigger] cs.deep_view()[q] == before[q] by {
                    assert(cs@[q] == old_cs[q]);
                }
                assert(cs.deep_view() =~= before.push(c@));
                assert forall|q: int| 0 <= q < cs@.len() implies 1 <= (#[trigger] cs@[q])@.len() <= n by {
                    if q < old_cs.len() {
                        assert(cs@[q] == old_cs[q]);
                    }
                }
                assert forall|q: int, k: int| 0 <= q < cs@.len() && 0 <= k < cs@[q]@.len() implies #[trigger] cs@[q]@[k] < n by {
                    if q < old_cs.len() {
                        assert(cs@[q] == old_cs[q]);
                    }
                }
            }
        }
        t += 1;
    }
    cs
}

// ---------------------------------------------------------------------------
// The dual graph across manifold edges
// ---------------------------------------------------------------------------

/// The sides 0, 1, 2 of a triangle in the order of their keys.
pub open spec fn key_order(k0: u64, k1: u64, k2: u64) -> Seq<int> {
    if k0 <= k1 {
        if k1 <= k2 {
            seq![0, 1, 2]
        } else if k0 <= k2 {
            seq![0, 2, 1]
        } else {
            seq![2, 0, 1]
        }
    } else {
        if k0 <= k2 {
            seq![1, 0, 2]
        } else if k1 <= k2 {
            seq![1, 2, 0]
        } else {
            seq![2, 1, 0]
        }
    }
}

/// Another side on the edge of side `x`.
pub open spec fn other_side(ind: Seq<u32>, x: int) -> int {
    choose|y: int| 0 <= y < side_records(ind).len() && y != x && side_records(ind)[y].0 == side_records(ind)[x].0
}

/// The triangle of the other side on the edge of side `x`.
pub open spec fn other_tri(ind: Seq<u32>, x: int) -> u32 {
    side_records(ind)[other_side(ind, x)].1.0
}

/// What side `x` adds to its triangle's row: the triangle across it, when
/// exactly two sides lie on its edge.
pub open spec fn pick(ind: Seq<u32>, x: int) -> Seq<u32> {
    if paired(ind, x) {
        seq![other_tri(ind, x)]
    } else {
        Seq::empty()
    }
}

/// The triangles across the manifold edges of triangle `t`, in the order
/// of the edge keys.
pub open spec fn dual_row(ind: Seq<u32>, t: int) -> Seq<u32> {
    let all = side_records(ind);
    let o = key_order(all[3 * t].0, all[3 * t + 1].0, all[3 * t + 2].0);
    pick(ind, 3 * t + o[0]) + pick(ind, 3 * t + o[1]) + pick(ind, 3 * t + o[2])
}

/// The dual graph across edges of exactly two sides.
pub open spec fn manifold_dual(ind: Seq<u32>) -> Seq<Seq<u32>> {
    Seq::new(ind.len() / 3, |t: int| dual_row(ind, t))
}

/// The triangle across a paired side is the one the topology holds there.
proof fn lemma_pick(ind: Seq<u32>, nbrs: Seq<[u32; 3]>, t: int, e: int)
    requires
        ind.len() / 3 <= u32::MAX,
        is_dual_graph(ind, nbrs),
        0 <= t < nbrs.len(),
        0 <= e < 3,
    ensures
        paired(ind, 3 * t + e) ==> pick(ind, 3 * t + e) == seq![nbrs[t][e]],
        !paired(ind, 3 * t + e) ==> pick(ind, 3 * t + e) == Seq::<u32>::empty(),
        paired(ind, 3 * t + e) ==> nbrs[t][e] < ind.len() / 3,
{
    let all = side_records(ind);
    let x = 3 * t + e;
    assert(across(all, x, nbrs[t][e]));
    lemma_side_of(ind, x);
    if paired(ind, x) {
        let y = choose|y: int| 0 <= y < all.len() && y != x && all[y].0 == all[x].0 && nbrs[t][e] == all[y].1.0;
        assert(0 <= y < all.len() && y != x && all[y].0 == all[x].0);
        let y2 = other_side(ind, x);
        lemma_two_of_key(ind, y, x, y2);
        lemma_side_of(ind, y);
        assert(all[y].1.0 == y / 3);
        assert(y / 3 < ind.len() / 3) by (nonlinear_arith)
            requires
                0 <= y < 3 * (ind.len() / 3),
        ;
    }
}

/// Row `t` of the dual graph across manifold edges.
fn row_of(indices: &[u32], nbrs: &Vec<[u32; 3]>, flags: &Vec<bool>, t: usize) -> (row: Vec<u32>)
    requires
        indices@.len() / 3 <= u32::MAX,
        t < indices@.len() / 3,
        is_dual_graph(indices@, nbrs@),
        flags@.len() == 3 * (indices@.len() / 3),
        forall|x: int| 0 <= x < flags@.len() ==> #[trigger] flags@[x] == paired(indices@, x),
    ensures
        row@ == dual_row(indices@, t as int),
        forall|k: int| 0 <= k < row@.len() ==> #[trigger] row@[k] < indices@.len() / 3,
{
    let ghost ind = indices@;
    let ghost all = side_records(ind);
    let len = indices.len();
    let nt = len / 3;
    assert(3 * t + 2 < len) by (nonlinear_arith)
        requires
            t < nt,
            nt == len / 3,
    ;
    let b = 3 * t;
    let (i0, i1, i2) = (indices[b], indices[b + 1], indices[b + 2]);
    let k0 = key_code_exec(i0, i1);
    let k1 = key_code_exec(i1, i2);
    let k2 = key_code_exec(i2, i0);
    proof {
        assert forall|e: int| 0 <= e < 3 implies #[trigger] all[3 * t + e].0 == key_code(
            tri_edge(ind, t as int, e).0,
            tri_edge(ind, t as int, e).1,
        ) by {
            let x = 3 * t + e;
            assert(x / 3 == t && x % 3 == e);
        }
        assert(k0 == all[3 * t + 0].0);
        assert(k1 == all[3 * t + 1].0);
        assert(k2 == all[3 * t + 2].0);
    }
    let order: [usize; 3] = if k0 <= k1 {
        if k1 <= k2 {
            [0, 1, 2]
        } else if k0 <= k2 {
            [0, 2, 1]
        } else {
            [2, 0, 1]
        }
    } else {
        if k0 <= k2 {
            [1, 0, 2]
        } else if k1 <= k2 {
            [1, 2, 0]
        } else {
            [2, 1, 0]
        }
    };
    let ghost o = key_order(k0, k1, k2);
    assert(o.len() == 3);
    assert(order@[0] == o[0] && order@[1] == o[1] && order@[2] == o[2]);
    let nb = nbrs[t];
    let mut row: Vec<u32> = Vec::new();
    let mut q: usize = 0;
    while q < 3
        invariant
            q <= 3,
            ind == indices@,
            len == ind.len(),
            nt == ind.len() / 3,
            nt <= u32::MAX,
            t < nt,
            3 * t + 2 < len,
            o.len() == 3,
            is_dual_graph(ind, nbrs@),
            nb == nbrs@[t as int],
            flags@.len() == 3 * nt,
            forall|x: int| 0 <= x < flags@.len() ==> #[trigger] flags@[x] == paired(ind, x),
            forall|w: int| 0 <= w < 3 ==> 0 <= (#[trigger] order@[w]) < 3 && order@[w] == o[w],
            row@ == if q == 0 {
                Seq::<u32>::empty()
            } else if q == 1 {
                pick(ind, 3 * t + o[0])
            } else if q == 2 {
                pick(ind, 3 * t + o[0]) + pick(ind, 3 * t + o[1])
            } else {
                pick(ind, 3 * t + o[0]) + pick(ind, 3 * t + o[1]) + pick(ind, 3 * t + o[2])
            },
            forall|k: int| 0 <= k < row@.len() ==> #[trigger] row@[k] < nt,
        decreases 3 - q,
    {
        let e = order[q];
        proof {
            lemma_pick(ind, nbrs@, t as int, e as int);
        }
        if flags[3 * t + e] {
            row.push(nb[e]);
        }
        q += 1;
        assert(row@ =~= if q == 1 {
            pick(ind, 3 * t + o[0])
        } else if q == 2 {
            pick(ind, 3 * t + o[0]) + pick(ind, 3 * t + o[1])
        } else {
            pick(ind, 3 * t + o[0]) + pick(ind, 3 * t + o[1]) + pick(ind, 3 * t + o[2])
        });
    }
    row
}

/// The dual graph across manifold edges, as neighbour lists.
pub fn manifold_dual_exec(indices: &[u32]) -> (rows: Vec<Vec<u32>>)
    requires
        indices@.len() / 3 <= u32::MAX,
    ensures
        lists(rows@) == manifold_dual(indices@),
        rows_ok(lists(rows@)),
{
    let topo = MeshTopology::build(indices);
    let flags = paired_sides(indices);
    let nt = indices.len() / 3;
    let mut rows: Vec<Vec<u32>> = Vec::new();
    let mut t: usize = 0;
    while t < nt
        invariant
            nt == indices@.len() / 3,
            nt <= u32::MAX,
            is_dual_graph(indices@, topo.neighbors@),
            flags@.len() == 3 * nt,
            forall|x: int| 0 <= x < flags@.len() ==> #[trigger] flags@[x] == paired(indices@, x),
            t <= nt,
            rows@.len() == t,
            forall|u: int| 0 <= u < t ==> (#[trigger] rows@[u])@ == dual_row(indices@, u),
            forall|u: int, k: int| 0 <= u < t && 0 <= k < rows@[u]@.len() ==> #[trigger] rows@[u]@[k] < nt,
        decreases nt - t,
    {
        let row = row_of(indices, &topo.neighbors, &flags, t);
        rows.push(row);
        t += 1;
    }
    proof {
        assert(lists(rows@) =~= manifold_dual(indices@));
        assert forall|u: int, k: int| 0 <= u < lists(rows@).len() && 0 <= k < lists(rows@)[u].len() implies #[trigger] lists(
            rows@,
        )[u][k] < lists(rows@).len() by {
            assert(lists(rows@)[u] == rows@[u]@);
        }
    }
    rows
}

// ---------------------------------------------------------------------------
// Removing small shells
// ---------------------------------------------------------------------------

/// The shells among the first `k` of size `m`, in order.
pub open spec fn ids_of_size(cs: Seq<Seq<u32>>, m: nat, k: int) -> Seq<usize>
    decreases k,
{
    if k <= 0 {
        Seq::empty()
    } else if cs[k - 1].len() == m {
        ids_of_size(cs, m, k - 1).push((k - 1) as usize)
    } else {
        ids_of_size(cs, m, k - 1)
    }
}

/// The shells of sizes `m` down to 1: the larger first, and shells of one
/// size in the order they were found.
pub open spec fn by_size(cs: Seq<Seq<u32>>, m: nat) -> Seq<usize>
    decreases m,
{
    if m == 0 {
        Seq::empty()
    } else {
        ids_of_size(cs, m, cs.len() as int) + by_size(cs, (m - 1) as nat)
    }
}

/// The shells of sizes `top` down to `m + 1`.
pub open spec fn sizes_above(cs: Seq<Seq<u32>>, top: nat, m: nat) -> Seq<usize>
    decreases top - m,
{
    if m >= top {
        Seq::empty()
    } else {
        sizes_above(cs, top, m + 1) + ids_of_size(cs, m + 1, cs.len() as int)
    }
}

proof fn lemma_sizes_above(cs: Seq<Seq<u32>>, top: nat, m: nat)
    requires
        m <= top,
    ensures
        by_size(cs, top) == sizes_above(cs, top, m) + by_size(cs, m),
    decreases top - m,
{
    if m < top {
        lemma_sizes_above(cs, top, m + 1);
        assert(by_size(cs, m + 1) == ids_of_size(cs, m + 1, cs.len() as int) + by_size(cs, m));
        assert(sizes_above(cs, top, m + 1) + by_size(cs, m + 1) =~= sizes_above(cs, top, m) + by_size(cs, m));
    } else {
        assert(sizes_above(cs, top, m) + by_size(cs, m) =~= by_size(cs, m));
    }
}

pub(crate) proof fn lemma_ids_of_size_bound(cs: Seq<Seq<u32>>, m: nat, k: int)
    requires
        0 <= k <= cs.len(),
        cs.len() <= usize::MAX,
    ensures
        forall|q: int| 0 <= q < ids_of_size(cs, m, k).len() ==> (#[trigger] ids_of_size(cs, m, k)[q]) < k,
    decreases k,
{
    if k > 0 {
        lemma_ids_of_size_bound(cs, m, k - 1);
        let r = ids_of_size(cs, m, k - 1);
        if cs[k - 1].len() == m {
            assert forall|q: int| 0 <= q < r.len() + 1 implies (#[trigger] r.push((k - 1) as usize)[q]) < k by {
                if q < r.len() {
                    assert(r.push((k - 1) as usize)[q] == r[q]);
                }
            }
        }
    }
}

proof fn lemma_by_size_bound(cs: Seq<Seq<u32>>, m: nat)
    requires
        cs.len() <= usize::MAX,
    ensures
        forall|q: int| 0 <= q < by_size(cs, m).len() ==> (#[trigger] by_size(cs, m)[q]) < cs.len(),
    decreases m,
{
    if m > 0 {
        lemma_by_size_bound(cs, (m - 1) as nat);
        lemma_ids_of_size_bound(cs, m, cs.len() as int);
        let a = ids_of_size(cs, m, cs.len() as int);
        let b = by_size(cs, (m - 1) as nat);
        assert forall|q: int| 0 <= q < by_size(cs, m).len() implies (#[trigger] by_size(cs, m)[q]) < cs.len() by {
            if q < a.len() {
                assert(by_size(cs, m)[q] == a[q]);
            } else {
                assert(by_size(cs, m)[q] == b[q - a.len()]);
            }
        }
    }
}

pub(crate) proof fn lemma_ids_of_size_distinct(cs: Seq<Seq<u32>>, m: nat, k: int)
    requires
        0 <= k <= cs.len(),
        cs.len() <= usize::MAX,
    ensures
        forall|a: int, b: int|
            0 <= a < b < ids_of_size(cs, m, k).len() ==> #[trigger] ids_of_size(cs, m, k)[a] < #[trigger] ids_of_size(cs, m, k)[b],
    decreases k,
{
    if k > 0 {
        lemma_ids_of_size_distinct(cs, m, k - 1);
        lemma_ids_of_size_bound(cs, m, k - 1);
        let r = ids_of_size(cs, m, k - 1);
        if cs[k - 1].len() == m {
            let r2 = r.push((k - 1) as usize);
            assert forall|a: int, b: int| 0 <= a < b < r2.len() implies #[trigger] r2[a] < #[trigger] r2[b] by {
                assert(r2[a] == r[a]);
                if b < r.len() {
                    assert(r2[b] == r[b]);
                }
            }
        }
    }
}

pub(crate) proof fn lemma_ids_of_size_members(cs: Seq<Seq<u32>>, m: nat, k: int)
    requires
        0 <= k <= cs.len(),
        cs.len() <= usize::MAX,
    ensures
        forall|q: int| 0 <= q < ids_of_size(cs, m, k).len() ==> cs[#[trigger] ids_of_size(cs, m, k)[q] as int].len() == m,
        forall|j: int| 0 <= j < k && #[trigger] cs[j].len() == m ==> ids_of_size(cs, m, k).len() > 0,
        forall|j: int| 0 <= j < k && #[trigger] cs[j].len() == m ==> ids_of_size(cs, m, k).contains(j as usize),
    decreases k,
{
    if k > 0 {
        lemma_ids_of_size_members(cs, m, k - 1);
        let r = ids_of_size(cs, m, k - 1);
        if cs[k - 1].len() == m {
            let r2 = r.push((k - 1) as usize);
            assert forall|q: int| 0 <= q < r.len() + 1 implies cs[#[trigger] r2[q] as int].len() == m by {
                if q < r.len() {
                    assert(r2[q] == r[q]);
                }
            }
            assert forall|j: int| 0 <= j < k && #[trigger] cs[j].len() == m implies r2.contains(j as usize) by {
                if j == k - 1 {
                    assert(r2[r.len() as int] == (k - 1) as usize);
                } else {
                    let q = choose|q: int| 0 <= q < r.len() && r[q] == j as usize;
                    assert(r2[q] == r[q]);
                }
            }
        }
    }
}

/// Among the shells of at most `m` triangles (each of at least one), the
/// first in `by_size` order is one of the largest.
proof fn lemma_by_size_first(cs: Seq<Seq<u32>>, m: nat)
    requires
        cs.len() <= usize::MAX,
        forall|j: int| 0 <= j < cs.len() ==> 1 <= (#[trigger] cs[j]).len(),
    ensures
        (exists|j: int| 0 <= j < cs.len() && (#[trigger] cs[j]).len() <= m) ==> {
            &&& by_size(cs, m).len() > 0
            &&& by_size(cs, m)[0] < cs.len()
            &&& forall|j: int| 0 <= j < cs.len() && (#[trigger] cs[j]).len() <= m ==> cs[j].len() <= cs[by_size(cs, m)[0] as int].len()
        },
    decreases m,
{
    if m > 0 && exists|j: int| 0 <= j < cs.len() && (#[trigger] cs[j]).len() <= m {
        let a = ids_of_size(cs, m, cs.len() as int);
        let b = by_size(cs, (m - 1) as nat);
        lemma_ids_of_size_members(cs, m, cs.len() as int);
        lemma_ids_of_size_bound(cs, m, cs.len() as int);
        lemma_by_size_first(cs, (m - 1) as nat);
        if a.len() > 0 {
            assert(by_size(cs, m)[0] == a[0]);
            assert(cs[a[0] as int].len() == m);
        } else {
            assert(by_size(cs, m) =~= b);
            let j0 = choose|j: int| 0 <= j < cs.len() && (#[trigger] cs[j]).len() <= m;
            assert(cs[j0].len() != m);
            assert(cs[j0].len() <= (m - 1) as nat);
            assert forall|j: int| 0 <= j < cs.len() && (#[trigger] cs[j]).len() <= m implies cs[j].len() <= cs[by_size(cs, m)[0] as int].len() by {
                assert(cs[j].len() != m);
            }
        }
    } else if m == 0 && exists|j: int| 0 <= j < cs.len() && (#[trigger] cs[j]).len() <= m {
        let j0 = choose|j: int| 0 <= j < cs.len() && (#[trigger] cs[j]).len() <= m;
        assert(1 <= cs[j0].len());
    }
}

/// The order of the shells lists exactly the shells of 1 to `m` triangles,
/// each once, largest first.
pub proof fn lemma_by_size_largest_first(cs: Seq<Seq<u32>>, m: nat)
    requires
        cs.len() <= usize::MAX,
    ensures
        forall|q: int| 0 <= q < by_size(cs, m).len() ==> (#[trigger] by_size(cs, m)[q]) < cs.len()
            && 1 <= cs[by_size(cs, m)[q] as int].len() <= m,
        forall|j: int| 0 <= j < cs.len() && 1 <= (#[trigger] cs[j]).len() <= m ==> by_size(cs, m).contains(j as usize),
        forall|a: int, b: int|
            0 <= a < b < by_size(cs, m).len() ==> cs[#[trigger] by_size(cs, m)[a] as int].len() >= cs[
                #[trigger] by_size(cs, m)[b] as int].len() && by_size(cs, m)[a] != by_size(cs, m)[b],
    decreases m,
{
    lemma_by_size_bound(cs, m);
    if m > 0 {
        let m1 = (m - 1) as nat;
        lemma_by_size_largest_first(cs, m1);
        lemma_ids_of_size_bound(cs, m, cs.len() as int);
        lemma_ids_of_size_members(cs, m, cs.len() as int);
        lemma_ids_of_size_distinct(cs, m, cs.len() as int);
        let a = ids_of_size(cs, m, cs.len() as int);
        let b = by_size(cs, m1);
        let s = by_size(cs, m);
        assert(s == a + b);
        assert forall|q: int| 0 <= q < s.len() implies (#[trigger] s[q]) < cs.len() && 1 <= cs[s[q] as int].len() <= m by {
            if q < a.len() {
                assert(s[q] == a[q]);
            } else {
                assert(s[q] == b[q - a.len()]);
            }
        }
        assert forall|j: int| 0 <= j < cs.len() && 1 <= (#[trigger] cs[j]).len() <= m implies s.contains(j as usize) by {
            if cs[j].len() == m {
                let q = choose|q: int| 0 <= q < a.len() && a[q] == j as usize;
                assert(s[q] == a[q]);
            } else {
                let q = choose|q: int| 0 <= q < b.len() && b[q] == j as usize;
                assert(s[a.len() + q] == b[q]);
            }
        }
        assert forall|x: int, y: int|
            0 <= x < y < s.len() implies cs[#[trigger] s[x] as int].len() >= cs[#[trigger] s[y] as int].len() && s[x] != s[y] by {
            if y < a.len() {
                assert(s[x] == a[x] && s[y] == a[y]);
            } else if x >= a.len() {
                assert(s[x] == b[x - a.len()] && s[y] == b[y - a.len()]);
            } else {
                assert(s[x] == a[x] && s[y] == b[y - a.len()]);
                assert(cs[a[x] as int].len() == m);
            }
        }
    }
}

/// With only the largest kept, exactly one shell is kept, and no shell has
/// more triangles than it.
pub proof fn lemma_largest_kept(cs: Seq<Seq<u32>>, nt: nat, min_faces: nat)
    requires
        0 < cs.len() <= usize::MAX,
        forall|j: int| 0 <= j < cs.len() ==> 1 <= (#[trigger] cs[j]).len() <= nt,
    ensures
        kept_shells(cs, nt, true, min_faces).len() == 1,
        kept_shells(cs, nt, true, min_faces)[0] < cs.len(),
        forall|j: int|
            0 <= j < cs.len() ==> (#[trigger] cs[j]).len() <= cs[kept_shells(cs, nt, true, min_faces)[0] as int].len(),
{
    assert(cs[0].len() <= nt);
    lemma_by_size_first(cs, nt);
    assert(kept_shells(cs, nt, true, min_faces)[0] == by_size(cs, nt)[0]);
}

/// The least number of triangles a shell keeps: `min_faces`, but at least 2.
pub open spec fn min_kept(min_faces: nat) -> nat {
    if min_faces > 2 {
        min_faces
    } else {
        2
    }
}

/// The shells kept: the largest alone, or every shell of at least
/// `min_kept(min_faces)` triangles; in the order of `by_size`.
pub open spec fn kept_shells(cs: Seq<Seq<u32>>, nt: nat, largest_only: bool, min_faces: nat) -> Seq<usize> {
    let order = by_size(cs, nt);
    if largest_only {
        order.take(if order.len() > 0 { 1int } else { 0int })
    } else {
        order.filter(|i: usize| cs[i as int].len() >= min_kept(min_faces))
    }
}

/// The corners of the triangles of a shell, shell order.
pub open spec fn shell_tris(ind: Seq<u32>, c: Seq<u32>) -> Seq<u32>
    decreases c.len(),
{
    if c.len() == 0 {
        Seq::empty()
    } else {
        let t = c.last() as int;
        shell_tris(ind, c.drop_last()) + seq![ind[3 * t], ind[3 * t + 1], ind[3 * t + 2]]
    }
}

/// The corners of the triangles of the shells `ids`, in order.
pub open spec fn kept_tris(ind: Seq<u32>, cs: Seq<Seq<u32>>, ids: Seq<usize>) -> Seq<u32>
    decreases ids.len(),
{
    if ids.len() == 0 {
        Seq::empty()
    } else {
        kept_tris(ind, cs, ids.drop_last()) + shell_tris(ind, cs[ids.last() as int])
    }
}

/// What removing small shells gives: `None` for a mesh without triangles
/// or of one shell, which stays as it is; else the kept triangles with
/// their vertices renumbered by first use.
pub open spec fn small_shells_removed(ind: Seq<u32>, largest_only: bool, min_faces: nat) -> Option<(Seq<u32>, Seq<u32>)> {
    let nt = ind.len() / 3;
    let cs = shells(manifold_dual(ind));
    if nt == 0 || cs.len() <= 1 {
        None
    } else {
        Some(first_uses(kept_tris(ind, cs, kept_shells(cs, nt, largest_only, min_faces))))
    }
}

proof fn lemma_shell_tris_len(ind: Seq<u32>, c: Seq<u32>)
    ensures
        shell_tris(ind, c).len() == 3 * c.len(),
    decreases c.len(),
{
    if c.len() > 0 {
        lemma_shell_tris_len(ind, c.drop_last());
    }
}

/// Appends the corners of the triangles of shell `c`.
fn push_shell(indices: &[u32], c: &Vec<u32>, out: &mut Vec<u32>, Ghost(nv): Ghost<nat>)
    requires
        forall|k: int| 0 <= k < c@.len() ==> 3 * (#[trigger] c@[k]) + 2 < indices@.len(),
        forall|k: int| 0 <= k < indices@.len() ==> (#[trigger] indices@[k]) < nv,
        forall|k: int| 0 <= k < old(out)@.len() ==> (#[trigger] old(out)@[k]) < nv,
    ensures
        final(out)@ == old(out)@ + shell_tris(indices@, c@),
        forall|k: int| 0 <= k < final(out)@.len() ==> (#[trigger] final(out)@[k]) < nv,
{
    let ghost start = out@;
    let len = indices.len();
    let mut k: usize = 0;
    while k < c.len()
        invariant
            len == indices@.len(),
            k <= c@.len(),
            forall|q: int| 0 <= q < c@.len() ==> 3 * (#[trigger] c@[q]) + 2 < indices@.len(),
            out@ == start + shell_tris(indices@, c@.take(k as int)),
            forall|q: int| 0 <= q < indices@.len() ==> (#[trigger] indices@[q]) < nv,
            forall|q: int| 0 <= q < out@.len() ==> (#[trigger] out@[q]) < nv,
        decreases c@.len() - k,
    {
        let t = c[k] as usize;
        assert(3 * c@[k as int] + 2 < indices@.len());
        out.push(indices[3 * t]);
        out.push(indices[3 * t + 1]);
        out.push(indices[3 * t + 2]);
        proof {
            assert(c@.take(k + 1).drop_last() =~= c@.take(k as int));
        }
        k += 1;
        assert(out@ =~= start + shell_tris(indices@, c@.take(k as int)));
    }
    assert(c@.take(c@.len() as int) =~= c@);
}

/// Removes the shells (pieces connected across edges of exactly two
/// triangles) smaller than `min_faces` triangles (at least 2), or all but
/// the largest. The kept shells come largest first, and their vertices are
/// renumbered by first use: the result is the kept vertices (old numbers)
/// and the new indices. `None` when there are no triangles or only one
/// shell: the mesh stays as it is.
pub fn remove_small_components(indices: &[u32], nv: usize, keep_largest_only: bool, min_faces: usize) -> (r: Option<(Vec<u32>, Vec<u32>)>)
    requires
        indices@.len() / 3 <= u32::MAX,
        nv <= u32::MAX,
        forall|k: int| 0 <= k < indices@.len() ==> (#[trigger] indices@[k]) < nv,
    ensures
        match (r, small_shells_removed(indices@, keep_largest_only, min_faces as nat)) {
            (None, None) => true,
            (Some(p), Some(q)) => (p.0@, p.1@) == q,
            _ => false,
        },
        // Keeping only the largest shell keeps the triangles of a shell that
        // no other shell outnumbers.
        match r {
            Some(p) => keep_largest_only ==> exists|i: int|
                #![trigger shells(manifold_dual(indices@))[i]]
                {
                    &&& 0 <= i < shells(manifold_dual(indices@)).len()
                    &&& p.1@.len() == 3 * shells(manifold_dual(indices@))[i].len()
                    &&& forall|j: int|
                        0 <= j < shells(manifold_dual(indices@)).len() ==> (#[trigger] shells(manifold_dual(indices@))[j]).len()
                            <= shells(manifold_dual(indices@))[i].len()
                },
            None => true,
        },
{
    let ghost ind = indices@;
    let len = indices.len();
    let nt = len / 3;
    if nt == 0 {
        return None;
    }
    let rows = manifold_dual_exec(indices);
    let cs = find_shells(&rows);
    let ghost cv = cs.deep_view();
    assert(cv == shells(manifold_dual(ind)));
    if cs.len() <= 1 {
        return None;
    }
    assert forall|q: int| 0 <= q < cs@.len() implies #[trigger] cs@[q]@ == cv[q] by {}
    // Bucket the shells by size.
    let mut buckets: Vec<Vec<usize>> = Vec::new();
    let mut m: usize = 0;
    while m <= nt
        invariant
            m <= nt + 1,
            nt == len / 3,
            buckets@.len() == m,
            forall|s: int| 0 <= s < m ==> (#[trigger] buckets@[s])@ == Seq::<usize>::empty(),
        decreases nt + 1 - m,
    {
        buckets.push(Vec::new());
        m += 1;
    }
    let mut id: usize = 0;
    while id < cs.len()
        invariant
            cv == cs.deep_view(),
            forall|q: int| 0 <= q < cs@.len() ==> #[trigger] cs@[q]@ == cv[q],
            nt == ind.len() / 3,
            rows@.len() == nt,
            forall|c: int| 0 <= c < cs@.len() ==> 1 <= (#[trigger] cs@[c])@.len() <= rows@.len(),
            id <= cs@.len(),
            buckets@.len() == nt + 1,
            forall|s: int| 0 <= s <= nt ==> (#[trigger] buckets@[s])@ == ids_of_size(cv, s as nat, id as int),
        decreases cs@.len() - id,
    {
        let size = cs[id].len();
        let mut b: Vec<usize> = Vec::new();
        buckets.set_and_swap(size, &mut b);
        b.push(id);
        buckets.set_and_swap(size, &mut b);
        id += 1;
    }
    // Largest first.
    let mut order: Vec<usize> = Vec::new();
    let mut s: usize = nt;
    while s > 0
        invariant
            s <= nt,
            buckets@.len() == nt + 1,
            forall|w: int| 0 <= w <= nt ==> (#[trigger] buckets@[w])@ == ids_of_size(cv, w as nat, cv.len() as int),
            order@ == sizes_above(cv, nt as nat, s as nat),
        decreases s,
    {
        let b = &buckets[s];
        let mut q: usize = 0;
        let ghost before = order@;
        while q < b.len()
            invariant
                q <= b@.len(),
                order@ == before + b@.take(q as int),
            decreases b@.len() - q,
        {
            order.push(b[q]);
            q += 1;
            assert(order@ =~= before + b@.take(q as int));
        }
        assert(b@.take(b@.len() as int) =~= b@);
        s -= 1;
    }
    proof {
        lemma_sizes_above(cv, nt as nat, 0);
        assert(order@ =~= by_size(cv, nt as nat));
        lemma_by_size_bound(cv, nt as nat);
    }
    // The shells kept.
    let ghost order_v = order@;
    let min_count = if min_faces > 2 { min_faces } else { 2 };
    let mut kept: Vec<usize> = Vec::new();
    if keep_largest_only {
        if order.len() > 0 {
            kept.push(order[0]);
        }
        assert(kept@ =~= kept_shells(cv, nt as nat, true, min_faces as nat));
    } else {
        let mut q: usize = 0;
        while q < order.len()
            invariant
                order@ == order_v,
                order_v == by_size(cv, nt as nat),
                forall|w: int| 0 <= w < order_v.len() ==> (#[trigger] order_v[w]) < cv.len(),
                cv == cs.deep_view(),
                forall|x: int| 0 <= x < cs@.len() ==> #[trigger] cs@[x]@ == cv[x],
                min_count == min_kept(min_faces as nat),
                q <= order@.len(),
                kept@ == order_v.take(q as int).filter(|i: usize| cv[i as int].len() >= min_kept(min_faces as nat)),
            decreases order@.len() - q,
        {
            let c = order[q];
            let ghost tq = order_v.take(q as int);
            assert(order_v.take(q + 1) =~= tq.push(c));
            proof {
                Seq::filter_distributes_over_add(tq, seq![c], |i: usize| cv[i as int].len() >= min_kept(min_faces as nat));
                assert(tq + seq![c] =~= tq.push(c));
            }
            if cs[c].len() >= min_count {
                kept.push(c);
                assert(seq![c].filter(|i: usize| cv[i as int].len() >= min_kept(min_faces as nat)) =~= seq![c]) by {
                    reveal_with_fuel(Seq::filter, 2);
                }
            } else {
                assert(seq![c].filter(|i: usize| cv[i as int].len() >= min_kept(min_faces as nat)) =~= Seq::<usize>::empty()) by {
                    reveal_with_fuel(Seq::filter, 2);
                }
            }
            q += 1;
            assert(kept@ =~= order_v.take(q as int).filter(|i: usize| cv[i as int].len() >= min_kept(min_faces as nat)));
        }
        assert(order_v.take(order_v.len() as int) =~= order_v);
    }
    let ghost kv = kept@;
    assert(kv == kept_shells(cv, nt as nat, keep_largest_only, min_faces as nat));
    proof {
        if !keep_largest_only {
            let pred = |i: usize| cv[i as int].len() >= min_kept(min_faces as nat);
            assert forall|w: int| 0 <= w < kv.len() implies (#[trigger] kv[w]) < cv.len() by {
                assert(order_v.filter(pred).contains(kv[w]));
                order_v.lemma_filter_contains_rev(pred, kv[w]);
            }
        }
    }
    // Their triangles.
    let mut tris: Vec<u32> = Vec::new();
    let mut q: usize = 0;
    while q < kept.len()
        invariant
            kept@ == kv,
            len == ind.len(),
            ind == indices@,
            nt == ind.len() / 3,
            cv == cs.deep_view(),
            forall|x: int| 0 <= x < cs@.len() ==> #[trigger] cs@[x]@ == cv[x],
            forall|c: int, k: int| 0 <= c < cs@.len() && 0 <= k < cs@[c]@.len() ==> #[trigger] cs@[c]@[k] < rows@.len(),
            rows@.len() == nt,
            forall|w: int| 0 <= w < kv.len() ==> (#[trigger] kv[w]) < cv.len(),
            q <= kv.len(),
            tris@ == kept_tris(ind, cv, kv.take(q as int)),
            forall|k: int| 0 <= k < tris@.len() ==> (#[trigger] tris@[k]) < nv,
            forall|k: int| 0 <= k < indices@.len() ==> (#[trigger] indices@[k]) < nv,
        decreases kv.len() - q,
    {
        let c = kept[q];
        proof {
            assert forall|k: int| 0 <= k < cs@[c as int]@.len() implies 3 * (#[trigger] cs@[c as int]@[k]) + 2 < indices@.len() by {
                assert(cs@[c as int]@[k] < nt);
                assert(3 * (cs@[c as int]@[k] as int) + 2 < indices@.len()) by (nonlinear_arith)
                    requires
                        cs@[c as int]@[k] < nt,
                        nt == indices@.len() / 3,
                ;
            }
            assert(kv.take(q + 1).drop_last() =~= kv.take(q as int));
        }
        push_shell(indices, &cs[c], &mut tris, Ghost(nv as nat));
        q += 1;
    }
    assert(kv.take(kv.len() as int) =~= kv);
    let res = compact_indices(nv, &tris);
    proof {
        lemma_first_uses_len(tris@);
        if keep_largest_only {
            assert forall|j: int| 0 <= j < cv.len() implies 1 <= (#[trigger] cv[j]).len() <= nt by {
                assert(cs@[j]@ == cv[j]);
            }
            lemma_largest_kept(cv, nt as nat, min_faces as nat);
            let i = kv[0] as int;
            assert(kv.drop_last() =~= Seq::<usize>::empty());
            assert(tris@ == shell_tris(ind, cv[i])) by {
                assert(kept_tris(ind, cv, kv.drop_last()) =~= Seq::<u32>::empty());
                assert(Seq::<u32>::empty() + shell_tris(ind, cv[i]) =~= shell_tris(ind, cv[i]));
            }
            lemma_shell_tris_len(ind, cv[i]);
            assert(res.1@.len() == 3 * cv[i].len());
        }
    }
    Some(res)
}

} // verus!
