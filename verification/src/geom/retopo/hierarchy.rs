//! Graph colouring for the multigrid hierarchy of the remesher.
use vstd::prelude::*;

verus! {

/// `off`/`nbr` is a graph in compressed rows: the neighbours of vertex `i`
/// are `nbr[off[i]..off[i + 1]]`, for the `off.len() - 1` vertices.
pub open spec fn csr_ok(off: Seq<u32>, nbr: Seq<u32>) -> bool {
    &&& 1 <= off.len() <= u32::MAX + 1
    &&& forall|i: int, j: int| 0 <= i <= j < off.len() ==> off[i] <= off[j]
    &&& off.last() <= nbr.len()
    &&& forall|p: int| off[0] <= p < off.last() ==> #[trigger] nbr[p] < off.len() - 1
}

/// The colours that earlier neighbours of vertex `i` have.
pub open spec fn earlier_colors(off: Seq<u32>, nbr: Seq<u32>, cols: Seq<nat>, i: int) -> Set<nat> {
    Set::new(
        |c: nat|
            exists|p: int| off[i] <= p < off[i + 1] && nbr[p] < i && #[trigger] cols[nbr[p] as int] == c,
    )
}

/// The smallest colour not in `s`.
pub open spec fn smallest_free(s: Set<nat>) -> nat {
    choose|c: nat| !s.contains(c) && forall|d: nat| d < c ==> s.contains(d)
}

/// Greedy colours of the first `k` vertices: each takes the smallest colour
/// that none of its earlier neighbours has.
pub open spec fn greedy_colors(off: Seq<u32>, nbr: Seq<u32>, k: int) -> Seq<nat>
    decreases k,
{
    if k <= 0 {
        Seq::empty()
    } else {
        let cols = greedy_colors(off, nbr, k - 1);
        cols.push(smallest_free(earlier_colors(off, nbr, cols, k - 1)))
    }
}

/// How many colours are used: one more than the largest.
pub open spec fn color_count(cols: Seq<nat>) -> nat
    decreases cols.len(),
{
    if cols.len() == 0 {
        0
    } else {
        let m = color_count(cols.drop_last());
        if cols.last() + 1 > m {
            cols.last() + 1
        } else {
            m
        }
    }
}

/// The vertices among the first `k` that have colour `c`, in order.
pub open spec fn phase(cols: Seq<nat>, c: nat, k: int) -> Seq<u32>
    decreases k,
{
    if k <= 0 {
        Seq::empty()
    } else if cols[k - 1] == c {
        phase(cols, c, k - 1).push((k - 1) as u32)
    } else {
        phase(cols, c, k - 1)
    }
}

/// The vertex list of each colour.
pub open spec fn phases_of(cols: Seq<nat>) -> Seq<Seq<u32>> {
    Seq::new(color_count(cols), |c: int| phase(cols, c as nat, cols.len() as int))
}

proof fn lemma_color_count(cols: Seq<nat>)
    ensures
        forall|j: int| 0 <= j < cols.len() ==> #[trigger] cols[j] < color_count(cols),
        cols.len() > 0 ==> exists|j: int| 0 <= j < cols.len() && cols[j] + 1 == color_count(cols),
    decreases cols.len(),
{
    if cols.len() > 0 {
        let d = cols.drop_last();
        lemma_color_count(d);
        assert forall|j: int| 0 <= j < cols.len() implies #[trigger] cols[j] < color_count(cols) by {
            if j < d.len() {
                assert(d[j] == cols[j]);
            }
        }
        if d.len() > 0 && cols.last() + 1 <= color_count(d) {
            let j = choose|j: int| 0 <= j < d.len() && d[j] + 1 == color_count(d);
            assert(cols[j] == d[j]);
        }
    }
}

/// The smallest free colour is the only colour that is free with all
/// smaller colours taken.
proof fn lemma_smallest_free(s: Set<nat>, c: nat)
    requires
        !s.contains(c),
        forall|d: nat| d < c ==> s.contains(d),
    ensures
        smallest_free(s) == c,
{
    let m = smallest_free(s);
    assert(!s.contains(m) && forall|d: nat| d < m ==> s.contains(d));
    if m < c {
        assert(s.contains(m));
    } else if m > c {
        assert(s.contains(c));
    }
}

proof fn lemma_phase_prefix(cols: Seq<nat>, x: nat, c: nat, k: int)
    requires
        0 <= k <= cols.len(),
    ensures
        phase(cols.push(x), c, k) == phase(cols, c, k),
    decreases k,
{
    if k > 0 {
        lemma_phase_prefix(cols, x, c, k - 1);
    }
}

proof fn lemma_phase_empty(cols: Seq<nat>, c: nat, k: int)
    requires
        0 <= k <= cols.len(),
        forall|j: int| 0 <= j < k ==> cols[j] != c,
    ensures
        phase(cols, c, k) == Seq::<u32>::empty(),
    decreases k,
{
    if k > 0 {
        lemma_phase_empty(cols, c, k - 1);
    }
}

/// Greedy graph colouring, returned as the vertex list of each colour.
pub fn color_phases(off: &[u32], nbr: &[u32]) -> (phases: Vec<Vec<u32>>)
    requires
        csr_ok(off@, nbr@),
    ensures
        phases.deep_view() == phases_of(greedy_colors(off@, nbr@, off@.len() - 1)),
{
    let n = off.len() - 1;
    let mut color: Vec<u32> = Vec::new();
    let mut v: usize = 0;
    while v < n
        invariant
            v <= n,
            color@.len() == v,
            forall|j: int| 0 <= j < v ==> color@[j] == u32::MAX,
        decreases n - v,
    {
        color.push(u32::MAX);
        v += 1;
    }
    let mut stamp: Vec<usize> = Vec::new();
    let mut phases: Vec<Vec<u32>> = Vec::new();
    let ghost mut cols: Seq<nat> = Seq::empty();
    assert(phases.deep_view() =~= phases_of(cols));
    let mut i: usize = 0;
    while i < n
        invariant
            csr_ok(off@, nbr@),
            n == off@.len() - 1,
            i <= n,
            cols == greedy_colors(off@, nbr@, i as int),
            cols.len() == i,
            color@.len() == n,
            forall|j: int| 0 <= j < n ==> #[trigger] color@[j] == if j < i {
                cols[j] as u32
            } else {
                u32::MAX
            },
            forall|j: int| 0 <= j < i ==> #[trigger] cols[j] < color_count(cols),
            color_count(cols) <= i,
            stamp@.len() == color_count(cols),
            phases@.len() == stamp@.len(),
            forall|c: int| 0 <= c < stamp@.len() ==> #[trigger] stamp@[c] < i || stamp@[c] == usize::MAX,
            phases.deep_view() == phases_of(cols),
        decreases n - i,
    {
        let ghost earlier = earlier_colors(off@, nbr@, cols, i as int);
        let a = off[i] as usize;
        let b = off[i + 1] as usize;
        let mut p: usize = a;
        while p < b
            invariant
                csr_ok(off@, nbr@),
                n == off@.len() - 1,
                i < n,
                a == off@[i as int],
                b == off@[i + 1],
                a <= p <= b,
                cols == greedy_colors(off@, nbr@, i as int),
                cols.len() == i,
                earlier == earlier_colors(off@, nbr@, cols, i as int),
                color@.len() == n,
                forall|j: int| 0 <= j < n ==> #[trigger] color@[j] == if j < i {
                    cols[j] as u32
                } else {
                    u32::MAX
                },
                forall|j: int| 0 <= j < i ==> #[trigger] cols[j] < color_count(cols),
                color_count(cols) <= i,
                stamp@.len() == color_count(cols),
                phases@.len() == stamp@.len(),
                forall|c: int| 0 <= c < stamp@.len() ==> #[trigger] stamp@[c] < i || stamp@[c] == usize::MAX || stamp@[c]
                    == i,
                forall|c: int|
                    0 <= c < stamp@.len() ==> (#[trigger] stamp@[c] == i <==> exists|q: int|
                        a <= q < p && nbr@[q] < i && cols[nbr@[q] as int] == c),
            decreases b - p,
        {
            assert(off@[0] <= off@[i as int]);
            assert(off@[i + 1] <= off@.last());
            let j = nbr[p];
            assert(nbr@[p as int] < n);
            let c = color[j as usize];
            if c != u32::MAX {
                assert(j < i);
                assert(cols[j as int] < color_count(cols));
                assert(c as nat == cols[j as int]);
                stamp.set(c as usize, i);
            }
            p += 1;
            proof {
                assert forall|d: int| 0 <= d < stamp@.len() implies (#[trigger] stamp@[d] == i <==> exists|q: int|
                    a <= q < p && nbr@[q] < i && cols[nbr@[q] as int] == d) by {
                    if c != u32::MAX && d == c {
                        assert(nbr@[p - 1] < i && cols[nbr@[p - 1] as int] == d);
                    }
                    if exists|q: int| a <= q < p && nbr@[q] < i && cols[nbr@[q] as int] == d {
                        let q = choose|q: int| a <= q < p && nbr@[q] < i && cols[nbr@[q] as int] == d;
                        if q == p - 1 {
                            assert(color@[j as int] == cols[j as int] as u32);
                        }
                    }
                }
            }
        }
        let mut c: usize = 0;
        while c < stamp.len() && stamp[c] == i
            invariant
                c <= stamp@.len(),
                forall|d: int| 0 <= d < c ==> #[trigger] stamp@[d] == i,
            decreases stamp@.len() - c,
        {
            c += 1;
        }
        proof {
            assert forall|d: nat| d < c implies earlier.contains(d) by {
                assert(stamp@[d as int] == i);
                let q = choose|q: int| a <= q < b && nbr@[q] < i && cols[nbr@[q] as int] == d;
                assert(cols[nbr@[q] as int] == d);
            }
            if earlier.contains(c as nat) {
                let q = choose|q: int| off@[i as int] <= q < off@[i + 1] && nbr@[q] < i && #[trigger] cols[nbr@[q] as int]
                    == c as nat;
                assert(cols[nbr@[q] as int] < color_count(cols));
                assert(stamp@[c as int] == i);
            }
            lemma_smallest_free(earlier, c as nat);
        }
        let ghost old_cols = cols;
        proof {
            cols = cols.push(c as nat);
            assert(cols == greedy_colors(off@, nbr@, i + 1));
            lemma_color_count(old_cols);
        }
        assert(c <= i) by {
            if old_cols.len() > 0 {
                let j = choose|j: int| 0 <= j < old_cols.len() && old_cols[j] + 1 == color_count(old_cols);
            }
        }
        color.set(i, c as u32);
        let ghost old_phases = phases.deep_view();
        let ghost old_vec = phases@;
        if c == stamp.len() {
            stamp.push(usize::MAX);
            let mut fresh: Vec<u32> = Vec::new();
            fresh.push(i as u32);
            phases.push(fresh);
            assert(forall|d: int| 0 <= d < old_vec.len() ==> phases@[d] == old_vec[d]);
        } else {
            let mut row: Vec<u32> = Vec::new();
            phases.set_and_swap(c, &mut row);
            assert(row@ == old_phases[c as int]);
            row.push(i as u32);
            phases.set_and_swap(c, &mut row);
            assert(forall|d: int| 0 <= d < old_vec.len() && d != c ==> phases@[d] == old_vec[d]);
        }
        proof {
            assert(color_count(cols) == if c as nat + 1 > color_count(old_cols) {
                c as nat + 1
            } else {
                color_count(old_cols)
            }) by {
                assert(cols.drop_last() =~= old_cols);
            }
            assert forall|d: int| 0 <= d < phases@.len() implies #[trigger] phases.deep_view()[d] == phases_of(cols)[d] by {
                lemma_phase_prefix(old_cols, c as nat, d as nat, i as int);
                assert(phases_of(cols)[d] == phase(cols, d as nat, i + 1));
                assert(phases.deep_view()[d] == phases@[d].deep_view());
                assert(phases@[d].deep_view() =~= phases@[d]@);
                if d == c && c == old_phases.len() {
                    assert forall|j: int| 0 <= j < i implies old_cols[j] != d by {
                        assert(old_cols[j] < color_count(old_cols));
                    }
                    lemma_phase_empty(old_cols, d as nat, i as int);
                    assert(phases@[d]@ =~= seq![i as u32]);
                } else if d == c {
                    assert(old_phases[d] == phase(old_cols, d as nat, i as int));
                } else {
                    assert(d < old_vec.len());
                    assert(phases@[d] == old_vec[d]);
                    assert(old_phases[d] == old_vec[d].deep_view());
                    assert(old_phases[d] == phase(old_cols, d as nat, i as int));
                    assert(cols[i as int] != d);
                }
            }
            assert(phases.deep_view() =~= phases_of(cols));
        }
        i += 1;
    }
    phases
}

/// Every edge of the graph is listed from both ends.
pub open spec fn csr_symmetric(off: Seq<u32>, nbr: Seq<u32>) -> bool {
    forall|i: int, p: int|
        #![trigger off[i], nbr[p]]
        0 <= i < off.len() - 1 && off[i] <= p < off[i + 1] ==> lists_edge(off, nbr, nbr[p] as int, i)
}

/// Vertex `b` is among the neighbours of vertex `a`.
pub open spec fn lists_edge(off: Seq<u32>, nbr: Seq<u32>, a: int, b: int) -> bool {
    exists|q: int| off[a] <= q < off[a + 1] && nbr[q] == b
}

proof fn lemma_greedy_len(off: Seq<u32>, nbr: Seq<u32>, k: int)
    requires
        0 <= k,
    ensures
        greedy_colors(off, nbr, k).len() == k,
    decreases k,
{
    if k > 0 {
        lemma_greedy_len(off, nbr, k - 1);
    }
}

/// Later vertices do not change the colours of earlier ones.
proof fn lemma_greedy_prefix(off: Seq<u32>, nbr: Seq<u32>, x: int, k: int)
    requires
        0 <= x < k,
    ensures
        greedy_colors(off, nbr, k)[x] == greedy_colors(off, nbr, x + 1)[x],
    decreases k,
{
    lemma_greedy_len(off, nbr, k - 1);
    if k > x + 1 {
        lemma_greedy_prefix(off, nbr, x, k - 1);
    }
}

/// A set of colours below `m` leaves a smallest free colour.
proof fn lemma_free_exists(s: Set<nat>, m: nat, k: nat)
    requires
        forall|x: nat| s.contains(x) ==> x < m,
        k <= m,
        forall|d: nat| d < k ==> s.contains(d),
    ensures
        !s.contains(smallest_free(s)),
        forall|d: nat| d < smallest_free(s) ==> s.contains(d),
    decreases m - k,
{
    if !s.contains(k) {
        lemma_smallest_free(s, k);
    } else {
        lemma_free_exists(s, m, k + 1);
    }
}

/// The colour of vertex `i` differs from that of an earlier neighbour.
proof fn lemma_earlier_neighbour_differs(off: Seq<u32>, nbr: Seq<u32>, i: int, p: int)
    requires
        csr_ok(off, nbr),
        0 <= i < off.len() - 1,
        off[i] <= p < off[i + 1],
        nbr[p] < i,
    ensures
        greedy_colors(off, nbr, i + 1)[i] != greedy_colors(off, nbr, i + 1)[nbr[p] as int],
{
    let cols = greedy_colors(off, nbr, i);
    lemma_greedy_len(off, nbr, i);
    let s = earlier_colors(off, nbr, cols, i);
    let m = color_count(cols);
    lemma_color_count(cols);
    assert forall|x: nat| s.contains(x) implies x < m by {
        let q = choose|q: int| off[i] <= q < off[i + 1] && nbr[q] < i && #[trigger] cols[nbr[q] as int] == x;
        assert(cols[nbr[q] as int] < m);
    }
    lemma_free_exists(s, m, 0);
    assert(s.contains(cols[nbr[p] as int]));
}

/// In the greedy colouring of a graph listed from both ends, the two ends
/// of an edge (other than a loop) have different colours.
pub proof fn lemma_neighbours_differ(off: Seq<u32>, nbr: Seq<u32>, i: int, p: int)
    requires
        csr_ok(off, nbr),
        csr_symmetric(off, nbr),
        0 <= i < off.len() - 1,
        off[i] <= p < off[i + 1],
        nbr[p] != i,
    ensures
        greedy_colors(off, nbr, off.len() - 1)[i] != greedy_colors(off, nbr, off.len() - 1)[nbr[p] as int],
{
    let n = off.len() - 1;
    let j = nbr[p] as int;
    assert(off[0] <= off[i] && off[i + 1] <= off.last());
    assert(j < n);
    lemma_greedy_prefix(off, nbr, i, n);
    lemma_greedy_prefix(off, nbr, j, n);
    if j < i {
        lemma_earlier_neighbour_differs(off, nbr, i, p);
        lemma_greedy_prefix(off, nbr, j, i + 1);
    } else {
        assert(lists_edge(off, nbr, j, i));
        let q = choose|q: int| off[j] <= q < off[j + 1] && nbr[q] == i;
        lemma_earlier_neighbour_differs(off, nbr, j, q);
        lemma_greedy_prefix(off, nbr, i, j + 1);
    }
}

proof fn lemma_phase_has(cols: Seq<nat>, c: nat, k: int, v: int)
    requires
        0 <= k <= cols.len(),
        cols.len() <= u32::MAX + 1,
    ensures
        phase(cols, c, k).contains(v as u32) && 0 <= v <= u32::MAX <==> 0 <= v < k && cols[v] == c,
    decreases k,
{
    if k > 0 {
        lemma_phase_has(cols, c, k - 1, v);
        let pre = phase(cols, c, k - 1);
        if cols[k - 1] == c {
            let full = pre.push((k - 1) as u32);
            assert(phase(cols, c, k) == full);
            if 0 <= v <= u32::MAX && full.contains(v as u32) && !pre.contains(v as u32) {
                let j = choose|j: int| 0 <= j < full.len() && #[trigger] full[j] == v as u32;
                if j < pre.len() {
                    assert(pre[j] == v as u32);
                }
            }
            if v == k - 1 {
                assert(full[pre.len() as int] == v as u32);
            }
            if 0 <= v < k - 1 && cols[v] == c {
                let j = choose|j: int| 0 <= j < pre.len() && #[trigger] pre[j] == v as u32;
                assert(full[j] == v as u32);
            }
        }
    }
}

/// Vertex `v` is in one of the phases.
pub open spec fn in_some_phase(ph: Seq<Seq<u32>>, v: u32) -> bool {
    exists|c: int| 0 <= c < ph.len() && #[trigger] ph[c].contains(v)
}

/// The phases of the greedy colouring of a graph listed from both ends
/// split its vertices: each vertex is in exactly one phase, the one of its
/// colour, a phase holds only vertices of the graph, and no phase holds
/// the two ends of an edge (other than a loop).
pub proof fn lemma_phases_partition(off: Seq<u32>, nbr: Seq<u32>)
    requires
        csr_ok(off, nbr),
        csr_symmetric(off, nbr),
    ensures
        ({
            let n = off.len() - 1;
            let ph = phases_of(greedy_colors(off, nbr, n));
            &&& forall|v: u32| v < n ==> #[trigger] in_some_phase(ph, v)
            &&& forall|c1: int, c2: int, v: u32|
                0 <= c1 < ph.len() && 0 <= c2 < ph.len() && #[trigger] ph[c1].contains(v) && #[trigger] ph[c2].contains(v)
                    ==> c1 == c2
            &&& forall|c: int, v: u32| 0 <= c < ph.len() && #[trigger] ph[c].contains(v) ==> v < n
            &&& forall|c: int, i: int, p: int|
                0 <= c < ph.len() && 0 <= i < n && off[i] <= p < off[i + 1] && nbr[p] != i
                    && #[trigger] ph[c].contains(i as u32) ==> !ph[c].contains(#[trigger] nbr[p])
        }),
{
    let n = off.len() - 1;
    let cols = greedy_colors(off, nbr, n);
    lemma_greedy_len(off, nbr, n);
    lemma_color_count(cols);
    let ph = phases_of(cols);
    assert forall|v: u32| v < n implies #[trigger] in_some_phase(ph, v) by {
        lemma_phase_has(cols, cols[v as int], n, v as int);
        assert(ph[cols[v as int] as int].contains(v));
    }
    assert forall|c1: int, c2: int, v: u32|
        0 <= c1 < ph.len() && 0 <= c2 < ph.len() && #[trigger] ph[c1].contains(v) && #[trigger] ph[c2].contains(v)
            implies c1 == c2 by {
        lemma_phase_has(cols, c1 as nat, n, v as int);
        lemma_phase_has(cols, c2 as nat, n, v as int);
    }
    assert forall|c: int, v: u32| 0 <= c < ph.len() && #[trigger] ph[c].contains(v) implies v < n by {
        lemma_phase_has(cols, c as nat, n, v as int);
    }
    assert forall|c: int, i: int, p: int|
        0 <= c < ph.len() && 0 <= i < n && off[i] <= p < off[i + 1] && nbr[p] != i
            && #[trigger] ph[c].contains(i as u32) implies !ph[c].contains(#[trigger] nbr[p]) by {
        assert(off[0] <= off[i] && off[i + 1] <= off.last());
        lemma_phase_has(cols, c as nat, n, i);
        lemma_phase_has(cols, c as nat, n, nbr[p] as int);
        lemma_neighbours_differ(off, nbr, i, p);
    }
}

} // verus!
