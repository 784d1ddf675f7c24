//! Reachability in a graph given by adjacency lists, and counting its
//! connected components.
use vstd::prelude::*;

verus! {

/// `x` is a node of the graph (nodes are numbered by `u32`).
pub open spec fn node(adj: Seq<Seq<u32>>, x: int) -> bool {
    0 <= x < adj.len() && x <= u32::MAX
}

/// `p` is a walk: nodes of the graph, each step following an adjacency
/// list.
pub open spec fn is_walk(adj: Seq<Seq<u32>>, p: Seq<int>) -> bool
    decreases p.len(),
{
    if p.len() == 0 {
        false
    } else if p.len() == 1 {
        node(adj, p[0])
    } else {
        &&& is_walk(adj, p.drop_last())
        &&& node(adj, p.last())
        &&& adj[p[p.len() - 2]].contains(p.last() as u32)
    }
}

/// `b` can be reached from `a`.
pub open spec fn connected(adj: Seq<Seq<u32>>, a: int, b: int) -> bool {
    exists|p: Seq<int>| #[trigger] is_walk(adj, p) && p[0] == a && p.last() == b
}

/// Every neighbour is a node, and every edge goes both ways.
pub open spec fn symmetric(adj: Seq<Seq<u32>>) -> bool {
    &&& adj.len() <= u32::MAX + 1
    &&& forall|a: int, j: int|
        0 <= a < adj.len() && 0 <= j < adj[a].len() ==> (#[trigger] adj[a][j]) < adj.len() && adj[adj[a][j] as int].contains(
            a as u32,
        )
}

/// Every node of `seen` has all its neighbours in `seen`.
pub open spec fn closed(adj: Seq<Seq<u32>>, seen: Seq<bool>) -> bool {
    forall|a: int, j: int| 0 <= a < adj.len() && seen[a] && 0 <= j < adj[a].len() ==> seen[#[trigger] adj[a][j] as int]
}

proof fn lemma_walk_start(adj: Seq<Seq<u32>>, p: Seq<int>)
    requires
        is_walk(adj, p),
    ensures
        node(adj, p[0]),
        node(adj, p.last()),
    decreases p.len(),
{
    if p.len() > 1 {
        lemma_walk_start(adj, p.drop_last());
    }
}

proof fn lemma_connected_step(adj: Seq<Seq<u32>>, a: int, b: int, c: int)
    requires
        connected(adj, a, b),
        node(adj, c),
        adj[b].contains(c as u32),
    ensures
        connected(adj, a, c),
{
    let p = choose|p: Seq<int>| #[trigger] is_walk(adj, p) && p[0] == a && p.last() == b;
    let q = p.push(c);
    assert(q.drop_last() =~= p);
    assert(q[q.len() - 2] == b);
    assert(is_walk(adj, q));
    assert(q[0] == a);
}

proof fn lemma_connected_refl(adj: Seq<Seq<u32>>, a: int)
    requires
        node(adj, a),
    ensures
        connected(adj, a, a),
{
    let p = seq![a];
    assert(is_walk(adj, p));
}

/// A closed set that holds the start of a walk holds its end.
proof fn lemma_closed_reach(adj: Seq<Seq<u32>>, seen: Seq<bool>, p: Seq<int>)
    requires
        seen.len() == adj.len(),
        closed(adj, seen),
        is_walk(adj, p),
        seen[p[0]],
    ensures
        seen[p.last()],
    decreases p.len(),
{
    if p.len() > 1 {
        let q = p.drop_last();
        assert(q[0] == p[0]);
        lemma_closed_reach(adj, seen, q);
        lemma_walk_start(adj, q);
        lemma_walk_start(adj, p);
        let a = p[p.len() - 2];
        let b = p.last();
        assert(q.last() == a);
        let j = choose|j: int| 0 <= j < adj[a].len() && adj[a][j] == b as u32;
        assert(seen[adj[a][j] as int]);
    }
}

proof fn lemma_connected_trans(adj: Seq<Seq<u32>>, a: int, b: int, q: Seq<int>)
    requires
        connected(adj, a, b),
        is_walk(adj, q),
        q[0] == b,
    ensures
        connected(adj, a, q.last()),
    decreases q.len(),
{
    if q.len() > 1 {
        let q1 = q.drop_last();
        lemma_connected_trans(adj, a, b, q1);
        lemma_walk_start(adj, q);
        lemma_connected_step(adj, a, q1.last(), q.last());
    }
}

/// Walks can be reversed in a symmetric graph.
proof fn lemma_connected_sym(adj: Seq<Seq<u32>>, p: Seq<int>)
    requires
        symmetric(adj),
        is_walk(adj, p),
    ensures
        connected(adj, p.last(), p[0]),
    decreases p.len(),
{
    lemma_walk_start(adj, p);
    if p.len() == 1 {
        lemma_connected_refl(adj, p[0]);
    } else {
        let q = p.drop_last();
        let c = q.last();
        let b = p.last();
        lemma_walk_start(adj, q);
        lemma_connected_sym(adj, q);
        // b is a neighbour of c, so c is one of b.
        let j = choose|j: int| 0 <= j < adj[c].len() && adj[c][j] == b as u32;
        assert(adj[adj[c][j] as int].contains(c as u32));
        lemma_connected_refl(adj, b);
        lemma_connected_step(adj, b, b, c);
        let w = choose|w: Seq<int>| #[trigger] is_walk(adj, w) && w[0] == c && w.last() == q[0];
        lemma_connected_trans(adj, b, c, w);
    }
}

pub open spec fn count_true(s: Seq<bool>) -> nat
    decreases s.len(),
{
    if s.len() == 0 {
        0
    } else {
        count_true(s.drop_last()) + if s.last() {
            1nat
        } else {
            0nat
        }
    }
}

pub(crate) proof fn lemma_count_bound(s: Seq<bool>)
    ensures
        count_true(s) <= s.len(),
    decreases s.len(),
{
    if s.len() > 0 {
        lemma_count_bound(s.drop_last());
    }
}

pub(crate) proof fn lemma_count_update(s: Seq<bool>, i: int)
    requires
        0 <= i < s.len(),
        !s[i],
    ensures
        count_true(s.update(i, true)) == count_true(s) + 1,
    decreases s.len(),
{
    let t = s.update(i, true);
    if i == s.len() - 1 {
        assert(t.drop_last() =~= s.drop_last());
    } else {
        assert(t.drop_last() =~= s.drop_last().update(i, true));
        lemma_count_update(s.drop_last(), i);
    }
}

/// The neighbour lists, as sequences.
pub open spec fn lists(adj: Seq<Vec<u32>>) -> Seq<Seq<u32>> {
    adj.map_values(|l: Vec<u32>| l@)
}

/// Marks every node reachable from `start`; `seen` was closed before.
pub(crate) fn flood(adj: &Vec<Vec<u32>>, seen: &mut Vec<bool>, start: usize)
    requires
        start < adj@.len(),
        old(seen)@.len() == adj@.len(),
        symmetric(lists(adj@)),
        closed(lists(adj@), old(seen)@),
        !old(seen)@[start as int],
    ensures
        final(seen)@.len() == adj@.len(),
        closed(lists(adj@), final(seen)@),
        forall|u: int| 0 <= u < adj@.len() ==> (#[trigger] final(seen)@[u] <==> old(seen)@[u] || connected(
            lists(adj@),
            start as int,
            u,
        )),
{
    let ghost g = lists(adj@);
    let ghost old_seen = seen@;
    let ghost n = g.len();
    proof {
        lemma_connected_refl(g, start as int);
    }
    seen.set(start, true);
    let mut stack: Vec<usize> = vec![start];
    while stack.len() > 0
        invariant
            g == lists(adj@),
            n == g.len() == adj@.len(),
            symmetric(g),
            seen@.len() == n,
            closed(g, old_seen),
            old_seen.len() == n,
            forall|k: int| 0 <= k < stack@.len() ==> (#[trigger] stack@[k]) < n && seen@[stack@[k] as int],
            forall|u: int| 0 <= u < n && #[trigger] seen@[u] ==> old_seen[u] || connected(g, start as int, u),
            forall|u: int| 0 <= u < n && old_seen[u] ==> #[trigger] seen@[u],
            start < n,
            seen@[start as int],
            forall|a: int, j: int|
                0 <= a < n && seen@[a] && !stack@.contains(a as usize) && 0 <= j < g[a].len() ==> seen@[#[trigger] g[a][j] as int],
        decreases n - count_true(seen@), stack@.len(),
    {
        let ghost st_before = stack@;
        let a = stack.pop().unwrap();
        let ghost st0 = stack@;
        let ghost count0 = count_true(seen@);
        proof {
            lemma_count_bound(seen@);
            assert(st_before =~= st0.push(a));
            assert(a == st_before[st_before.len() - 1]);
            assert forall|b: int, i: int|
                0 <= b < n && b != a && seen@[b] && !stack@.contains(b as usize) && 0 <= i < g[b].len() implies seen@[#[trigger] g[b][i] as int] by {
                if st_before.contains(b as usize) {
                    let q = choose|q: int| 0 <= q < st_before.len() && st_before[q] == b as usize;
                    assert(q < st0.len());
                    assert(st0[q] == b as usize);
                }
            }
        }
        let mut j: usize = 0;
        while j < adj[a].len()
            invariant
                g == lists(adj@),
                n == g.len() == adj@.len(),
                a < n,
                symmetric(g),
                seen@.len() == n,
                closed(g, old_seen),
                old_seen.len() == n,
                j <= g[a as int].len(),
                g[a as int] == adj@[a as int]@,
                seen@[a as int],
                old_seen[a as int] || connected(g, start as int, a as int),
                stack@.len() >= st0.len(),
                forall|k: int| 0 <= k < st0.len() ==> stack@[k] == st0[k],
                count_true(seen@) == count0 + (stack@.len() - st0.len()),
                count_true(seen@) <= n,
                forall|k: int| 0 <= k < stack@.len() ==> (#[trigger] stack@[k]) < n && seen@[stack@[k] as int],
                forall|u: int| 0 <= u < n && #[trigger] seen@[u] ==> old_seen[u] || connected(g, start as int, u),
                forall|u: int| 0 <= u < n && old_seen[u] ==> #[trigger] seen@[u],
                start < n,
                seen@[start as int],
                forall|k: int| 0 <= k < j ==> seen@[#[trigger] g[a as int][k] as int],
                forall|b: int, i: int|
                    0 <= b < n && b != a && seen@[b] && !stack@.contains(b as usize) && 0 <= i < g[b].len() ==> seen@[#[trigger] g[b][i] as int],
            decreases g[a as int].len() - j,
        {
            let b = adj[a][j];
            assert(g[a as int][j as int] == b);
            assert((b as int) < n);
            if !seen[b as usize] {
                let ghost s_before = seen@;
                let ghost stk = stack@;
                proof {
                    assert(g[a as int].contains(b));
                    if old_seen[a as int] {
                        assert(seen@[g[a as int][j as int] as int]);
                    } else {
                        lemma_connected_step(g, start as int, a as int, b as int);
                    }
                    lemma_count_update(seen@, b as int);
                    lemma_count_bound(seen@.update(b as int, true));
                }
                seen.set(b as usize, true);
                stack.push(b as usize);
                proof {
                    assert(stack@ =~= stk.push(b as usize));
                    assert forall|x: int, i: int|
                        0 <= x < n && x != a && seen@[x] && !stack@.contains(x as usize) && 0 <= i < g[x].len() implies seen@[#[trigger] g[x][i] as int] by {
                        if x == b as int {
                            assert(stack@[stack@.len() - 1] == b as usize);
                        }
                        assert(s_before[x]);
                        if stk.contains(x as usize) {
                            let q = choose|q: int| 0 <= q < stk.len() && stk[q] == x as usize;
                            assert(stack@[q] == x as usize);
                        }
                    }
                }
            }
            j += 1;
        }
        proof {
            assert forall|x: int, i: int|
                0 <= x < n && seen@[x] && !stack@.contains(x as usize) && 0 <= i < g[x].len() implies seen@[#[trigger] g[x][i] as int] by {
                if x != a {
                }
            }
        }
    }
    proof {
        assert forall|x: int, i: int| 0 <= x < n && seen@[x] && 0 <= i < g[x].len() implies seen@[#[trigger] g[x][i] as int] by {
            assert(!stack@.contains(x as usize));
        }
        assert forall|u: int| 0 <= u < n implies (#[trigger] seen@[u] <==> old_seen[u] || connected(g, start as int, u)) by {
            if connected(g, start as int, u) {
                let p = choose|p: Seq<int>| #[trigger] is_walk(g, p) && p[0] == start && p.last() == u;
                lemma_closed_reach(g, seen@, p);
            }
        }
    }
}

/// Node `t` is the first of its component: no smaller node is connected
/// to it.
pub open spec fn leads(adj: Seq<Seq<u32>>, t: int) -> bool {
    forall|u: int| 0 <= u < t ==> !connected(adj, u, t)
}

/// How many of the first `k` nodes lead their component.
pub open spec fn leaders(adj: Seq<Seq<u32>>, k: int) -> nat
    decreases k,
{
    if k <= 0 {
        0
    } else {
        leaders(adj, k - 1) + if leads(adj, k - 1) {
            1nat
        } else {
            0nat
        }
    }
}

/// The number of connected components of a symmetric graph.
pub fn count_components(adj: &Vec<Vec<u32>>) -> (c: usize)
    requires
        symmetric(lists(adj@)),
    ensures
        c == leaders(lists(adj@), adj@.len() as int),
{
    let ghost g = lists(adj@);
    let n = adj.len();
    let mut seen: Vec<bool> = Vec::new();
    let mut i: usize = 0;
    while i < n
        invariant
            i <= n,
            seen@ == Seq::new(i as nat, |k: int| false),
        decreases n - i,
    {
        seen.push(false);
        i += 1;
        assert(seen@ =~= Seq::new(i as nat, |k: int| false));
    }
    let mut count: usize = 0;
    let mut t: usize = 0;
    while t < n
        invariant
            g == lists(adj@),
            n == adj@.len() == g.len(),
            symmetric(g),
            t <= n,
            seen@.len() == n,
            closed(g, seen@),
            forall|u: int| 0 <= u < n ==> (#[trigger] seen@[u] <==> exists|w: int| 0 <= w < t && connected(g, w, u)),
            count == leaders(g, t as int),
            count <= t,
        decreases n - t,
    {
        if !seen[t] {
            proof {
                assert forall|u: int| 0 <= u < t implies !connected(g, u, t as int) by {
                    if connected(g, u, t as int) {
                        assert(seen@[t as int]);
                    }
                }
            }
            let ghost before = seen@;
            flood(adj, &mut seen, t);
            count += 1;
            proof {
                assert forall|u: int| 0 <= u < n implies (#[trigger] seen@[u] <==> exists|w: int| 0 <= w < t + 1 && connected(g, w, u)) by {
                    if exists|w: int| 0 <= w < t + 1 && connected(g, w, u) {
                        let w = choose|w: int| 0 <= w < t + 1 && connected(g, w, u);
                        if w < t {
                            assert(before[u]);
                        }
                    }
                }
            }
        } else {
            proof {
                let w = choose|w: int| 0 <= w < t && connected(g, w, t as int);
                assert(!leads(g, t as int));
                assert forall|u: int| 0 <= u < n implies (#[trigger] seen@[u] <==> exists|w2: int| 0 <= w2 < t + 1 && connected(g, w2, u)) by {
                    if exists|w2: int| 0 <= w2 < t + 1 && connected(g, w2, u) {
                        let w2 = choose|w2: int| 0 <= w2 < t + 1 && connected(g, w2, u);
                        if w2 == t {
                            // t is reached from w, so u is too.
                            let p = choose|p: Seq<int>| #[trigger] is_walk(g, p) && p[0] == t && p.last() == u;
                            lemma_connected_trans(g, w, t as int, p);
                        }
                    }
                }
            }
        }
        t += 1;
    }
    count
}

/// Walks depend only on which neighbours each node has.
proof fn lemma_same_walks(g1: Seq<Seq<u32>>, g2: Seq<Seq<u32>>, p: Seq<int>)
    requires
        g1.len() == g2.len(),
        forall|a: int, b: u32| 0 <= a < g1.len() ==> (#[trigger] g1[a].contains(b) <==> g2[a].contains(b)),
    ensures
        is_walk(g1, p) == is_walk(g2, p),
    decreases p.len(),
{
    if p.len() > 1 {
        lemma_same_walks(g1, g2, p.drop_last());
        if is_walk(g1, p.drop_last()) {
            lemma_walk_start(g1, p.drop_last());
        }
    }
}

/// Two graphs with the same neighbours have the same components.
pub proof fn lemma_same_leaders(g1: Seq<Seq<u32>>, g2: Seq<Seq<u32>>, k: int)
    requires
        g1.len() == g2.len(),
        forall|a: int, b: u32| 0 <= a < g1.len() ==> (#[trigger] g1[a].contains(b) <==> g2[a].contains(b)),
    ensures
        leaders(g1, k) == leaders(g2, k),
    decreases k,
{
    assert forall|a: int, b: int| connected(g1, a, b) == connected(g2, a, b) by {
        if connected(g1, a, b) {
            let p = choose|p: Seq<int>| #[trigger] is_walk(g1, p) && p[0] == a && p.last() == b;
            lemma_same_walks(g1, g2, p);
        }
        if connected(g2, a, b) {
            let p = choose|p: Seq<int>| #[trigger] is_walk(g2, p) && p[0] == a && p.last() == b;
            lemma_same_walks(g1, g2, p);
        }
    }
    if k > 0 {
        lemma_same_leaders(g1, g2, k - 1);
        assert(leads(g1, k - 1) == leads(g2, k - 1));
    }
}

} // verus!
