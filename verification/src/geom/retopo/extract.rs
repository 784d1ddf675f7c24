//! Face loops of the extracted polygon mesh.
use vstd::prelude::*;

verus! {

/// The state after reading the first `k` vertices of a loop: the pieces cut
/// off so far, and the open stack of vertices.
pub open spec fn pinch_state(face: Seq<u32>, k: int) -> (Seq<Seq<u32>>, Seq<u32>)
    decreases k,
{
    if k <= 0 {
        (Seq::empty(), Seq::empty())
    } else {
        let (out, stack) = pinch_state(face, k - 1);
        let v = face[k - 1];
        if stack.contains(v) {
            let i = stack.index_of(v);
            let piece = stack.skip(i);
            let out2 = if piece.len() >= 3 {
                out.push(piece)
            } else {
                out
            };
            (out2, stack.take(i).push(v))
        } else {
            (out, stack.push(v))
        }
    }
}

/// The simple loops of a loop that may visit a vertex more than once.
pub open spec fn pinched_pieces(face: Seq<u32>) -> Seq<Seq<u32>> {
    let (out, stack) = pinch_state(face, face.len() as int);
    if stack.len() >= 3 {
        out.push(stack)
    } else {
        out
    }
}

pub open spec fn distinct(s: Seq<u32>) -> bool {
    forall|a: int, b: int| 0 <= a < b < s.len() ==> s[a] != s[b]
}

/// No piece visits a vertex twice, and none is shorter than three.
pub open spec fn simple_pieces(out: Seq<Seq<u32>>) -> bool {
    forall|p: int| 0 <= p < out.len() ==> distinct(#[trigger] out[p]) && out[p].len() >= 3
}

proof fn lemma_pinch_state(face: Seq<u32>, k: int)
    requires
        0 <= k <= face.len(),
    ensures
        distinct(pinch_state(face, k).1),
        simple_pieces(pinch_state(face, k).0),
    decreases k,
{
    if k > 0 {
        lemma_pinch_state(face, k - 1);
        let (out, stack) = pinch_state(face, k - 1);
        let v = face[k - 1];
        if stack.contains(v) {
            let i = stack.index_of(v);
            let t = stack.take(i).push(v);
            assert forall|a: int, b: int| 0 <= a < b < t.len() implies t[a] != t[b] by {
                if b == i {
                    assert(stack[a] != stack[i]);
                }
            }
        } else {
            let t = stack.push(v);
            assert forall|a: int, b: int| 0 <= a < b < t.len() implies t[a] != t[b] by {
                if b == stack.len() {
                    assert(stack[a] != v);
                }
            }
        }
    }
}

/// Cutting a loop at its pinches gives simple loops of at least three
/// vertices.
pub proof fn lemma_pieces_are_simple(face: Seq<u32>)
    ensures
        simple_pieces(pinched_pieces(face)),
{
    lemma_pinch_state(face, face.len() as int);
}

/// The first position of `v` in `s`, if any.
fn find(s: &Vec<u32>, v: u32) -> (r: Option<usize>)
    ensures
        match r {
            Some(i) => i < s@.len() && s@[i as int] == v && forall|j: int| 0 <= j < i ==> s@[j] != v,
            None => !s@.contains(v),
        },
{
    let mut i: usize = 0;
    while i < s.len()
        invariant
            i <= s@.len(),
            forall|j: int| 0 <= j < i ==> s@[j] != v,
        decreases s@.len() - i,
    {
        if s[i] == v {
            return Some(i);
        }
        i += 1;
    }
    None
}

/// Splits a loop that visits a vertex more than once (two faces pinched
/// together at a vertex) into simple loops; pieces with fewer than three
/// vertices (spikes) are dropped.
pub fn split_pinched(face: &[u32]) -> (r: Vec<Vec<u32>>)
    ensures
        r.deep_view() == pinched_pieces(face@),
{
    let mut out: Vec<Vec<u32>> = Vec::new();
    let mut stack: Vec<u32> = Vec::new();
    let mut k: usize = 0;
    while k < face.len()
        invariant
            k <= face@.len(),
            (out.deep_view(), stack@) == pinch_state(face@, k as int),
        decreases face@.len() - k,
    {
        let v = face[k];
        proof {
            lemma_pinch_state(face@, k as int);
        }
        match find(&stack, v) {
            Some(i) => {
                let ghost st = stack@;
                assert(st.contains(v));
                assert(st.index_of(v) == i) by {
                    let j = st.index_of(v);
                    assert(st[j] == v);
                    if j < i {
                        assert(st[j] != v);
                    } else if j > i {
                        assert(st[i as int] == st[j]);
                    }
                }
                let mut piece: Vec<u32> = Vec::new();
                let mut j: usize = i;
                while j < stack.len()
                    invariant
                        i <= j <= stack@.len(),
                        piece@ == stack@.subrange(i as int, j as int),
                    decreases stack@.len() - j,
                {
                    piece.push(stack[j]);
                    j += 1;
                    assert(piece@ =~= stack@.subrange(i as int, j as int));
                }
                stack.truncate(i);
                assert(piece@ =~= st.skip(i as int));
                assert(stack@ =~= st.take(i as int));
                if piece.len() >= 3 {
                    let ghost before = out.deep_view();
                    let ghost old_out = out@;
                    assert(piece.deep_view() =~= piece@);
                    out.push(piece);
                    assert forall|q: int| 0 <= q < before.len() implies #[trigger] out.deep_view()[q] == before[q] by {
                        assert(out@[q] == old_out[q]);
                    }
                    assert(out.deep_view() =~= before.push(st.skip(i as int)));
                }
                stack.push(v);
            },
            None => {
                stack.push(v);
            },
        }
        k += 1;
    }
    if stack.len() >= 3 {
        let ghost before = out.deep_view();
        let ghost sv = stack@;
        let ghost old_out = out@;
        assert(stack.deep_view() =~= stack@);
        out.push(stack);
        assert forall|q: int| 0 <= q < before.len() implies #[trigger] out.deep_view()[q] == before[q] by {
            assert(out@[q] == old_out[q]);
        }
        assert(out.deep_view() =~= before.push(sv));
    }
    out
}


// ---------------------------------------------------------------------------
// Disjoint sets
// ---------------------------------------------------------------------------

/// Disjoint sets of `0..n` with union by size and path halving.
pub struct Dsu {
    parent: Vec<u32>,
    size: Vec<u32>,
    /// The representative of each element.
    rep: Ghost<Seq<int>>,
    /// Ranks that grow towards the roots, all below `bound`.
    rank: Ghost<Seq<nat>>,
    bound: Ghost<nat>,
}

impl Dsu {
    /// The representative (root) of each element.
    pub closed spec fn reps(&self) -> Seq<int> {
        self.rep@
    }

    /// The size counters: for a root, the number of elements of its set.
    pub closed spec fn sizes(&self) -> Seq<u32> {
        self.size@
    }

    pub closed spec fn wf(&self) -> bool {
        let n = self.parent@.len();
        &&& n <= u32::MAX
        &&& self.size@.len() == n
        &&& self.rep@.len() == n
        &&& self.rank@.len() == n
        &&& forall|x: int| 0 <= x < n ==> #[trigger] self.parent@[x] < n
        &&& forall|x: int| 0 <= x < n ==> 0 <= #[trigger] self.rep@[x] < n
        &&& forall|x: int| 0 <= x < n ==> self.parent@[#[trigger] self.rep@[x]] == self.rep@[x]
        &&& forall|x: int| 0 <= x < n ==> self.rep@[self.parent@[x] as int] == #[trigger] self.rep@[x]
        &&& forall|x: int| 0 <= x < n && #[trigger] self.parent@[x] == x ==> self.rep@[x] == x
        &&& forall|x: int| 0 <= x < n ==> #[trigger] self.rank@[x] < self.bound@
        &&& forall|x: int|
            0 <= x < n && #[trigger] self.parent@[x] != x ==> self.rank@[x] < self.rank@[self.parent@[x] as int]
    }

    /// `n` sets of one element each.
    pub fn new(n: usize) -> (d: Dsu)
        requires
            n <= u32::MAX,
        ensures
            d.wf(),
            d.reps() == Seq::new(n as nat, |x: int| x),
            d.sizes() == Seq::new(n as nat, |x: int| 1u32),
    {
        let mut parent: Vec<u32> = Vec::new();
        let mut size: Vec<u32> = Vec::new();
        let mut i: usize = 0;
        while i < n
            invariant
                i <= n <= u32::MAX,
                parent@ == Seq::new(i as nat, |x: int| x as u32),
                size@ == Seq::new(i as nat, |x: int| 1u32),
            decreases n - i,
        {
            parent.push(i as u32);
            size.push(1);
            i += 1;
            assert(parent@ =~= Seq::new(i as nat, |x: int| x as u32));
            assert(size@ =~= Seq::new(i as nat, |x: int| 1u32));
        }
        Dsu {
            parent,
            size,
            rep: Ghost(Seq::new(n as nat, |x: int| x)),
            rank: Ghost(Seq::new(n as nat, |x: int| 0nat)),
            bound: Ghost(1nat),
        }
    }

    /// The representative of `x`, halving the path to it on the way.
    pub fn find(&mut self, x: u32) -> (r: u32)
        requires
            old(self).wf(),
            x < old(self).reps().len(),
        ensures
            final(self).wf(),
            r == old(self).reps()[x as int],
            final(self).reps() == old(self).reps(),
            final(self).sizes() == old(self).sizes(),
    {
        let ghost n = self.parent@.len();
        let ghost target = self.rep@[x as int];
        let mut x = x;
        while self.parent[x as usize] != x
            invariant
                self.wf(),
                self.parent@.len() == n,
                x < n,
                self.rep@ == old(self).rep@,
                self.size@ == old(self).size@,
                self.rep@[x as int] == target,
                self.bound@ == old(self).bound@,
            decreases self.bound@ - self.rank@[x as int],
        {
            let p = self.parent[x as usize];
            let g = self.parent[p as usize];
            let ghost before = self.parent@;
            self.parent.set(x as usize, g);
            proof {
                assert(before[x as int] == p);
                assert(self.rep@[p as int] == self.rep@[x as int]);
                assert(self.rep@[g as int] == self.rep@[p as int]);
                if before[p as int] != p {
                    assert(self.rank@[p as int] < self.rank@[g as int]);
                }
                assert forall|y: int| 0 <= y < n implies #[trigger] self.parent@[y] < n by {
                    if y != x as int {
                        assert(self.parent@[y] == before[y]);
                    }
                }
                assert forall|y: int| 0 <= y < n implies self.parent@[#[trigger] self.rep@[y]] == self.rep@[y] by {
                    let r = self.rep@[y];
                    assert(before[r] == r);
                    if r == x as int {
                        assert(before[x as int] == x);
                    }
                }
                assert forall|y: int| 0 <= y < n implies self.rep@[self.parent@[y] as int] == #[trigger] self.rep@[y] by {
                    if y != x as int {
                        assert(self.parent@[y] == before[y]);
                    }
                }
                assert forall|y: int| 0 <= y < n && #[trigger] self.parent@[y] == y implies self.rep@[y] == y by {
                    if y != x as int {
                        assert(before[y] == y);
                    } else {
                        assert(g != x);
                    }
                }
                assert forall|y: int| 0 <= y < n && #[trigger] self.parent@[y] != y implies self.rank@[y] < self.rank@[
                    self.parent@[y] as int] by {
                    if y != x as int {
                        assert(self.parent@[y] == before[y]);
                    }
                }
            }
            x = g;
        }
        proof {
            assert(self.rep@[x as int] == x);
        }
        x
    }

    /// Joins the sets of the representatives `a` and `b`: the one with the
    /// larger size counter (`a` among equals) becomes the representative
    /// of both, and its counter becomes the sum. Returns it.
    pub fn union_roots(&mut self, a: u32, b: u32) -> (r: u32)
        requires
            old(self).wf(),
            a < old(self).reps().len(),
            b < old(self).reps().len(),
            old(self).reps()[a as int] == a,
            old(self).reps()[b as int] == b,
            old(self).sizes()[a as int] + old(self).sizes()[b as int] <= u32::MAX,
        ensures
            final(self).wf(),
            r == if old(self).sizes()[a as int] >= old(self).sizes()[b as int] {
                a
            } else {
                b
            },
            final(self).reps() == Seq::new(
                old(self).reps().len(),
                |y: int|
                    if old(self).reps()[y] == a as int || old(self).reps()[y] == b as int {
                        r as int
                    } else {
                        old(self).reps()[y]
                    },
            ),
            final(self).sizes() == old(self).sizes().update(
                r as int,
                (old(self).sizes()[a as int] + old(self).sizes()[b as int]) as u32,
            ),
    {
        let ghost n = self.parent@.len();
        let (big, small) = if self.size[a as usize] >= self.size[b as usize] {
            (a, b)
        } else {
            (b, a)
        };
        let ghost p0 = self.parent@;
        let ghost rep0 = self.rep@;
        let ghost rank0 = self.rank@;
        assert(p0[a as int] == a && p0[b as int] == b);
        self.parent.set(small as usize, big);
        let total = self.size[big as usize] + self.size[small as usize];
        self.size.set(big as usize, total);
        proof {
            let nr = if rank0[big as int] > rank0[small as int] {
                rank0[big as int]
            } else {
                rank0[small as int] + 1
            };
            self.rank@ = rank0.update(big as int, nr);
            self.bound@ = if self.bound@ > nr {
                self.bound@
            } else {
                nr + 1
            };
            self.rep@ = Seq::new(
                n,
                |y: int|
                    if rep0[y] == a as int || rep0[y] == b as int {
                        big as int
                    } else {
                        rep0[y]
                    },
            );
            let p = self.parent@;
            let rep = self.rep@;
            let rank = self.rank@;
            assert forall|y: int| 0 <= y < n implies #[trigger] p[y] < n by {
                if y != small as int {
                    assert(p[y] == p0[y]);
                }
            }
            assert forall|y: int| 0 <= y < n implies p[#[trigger] rep[y]] == rep[y] by {
                if rep[y] != big as int {
                    assert(rep[y] == rep0[y]);
                    assert(p0[rep0[y]] == rep0[y]);
                    assert(rep0[y] != small as int);
                }
            }
            assert forall|y: int| 0 <= y < n implies rep[p[y] as int] == #[trigger] rep[y] by {
                if y != small as int {
                    assert(p[y] == p0[y]);
                    assert(rep0[p0[y] as int] == rep0[y]);
                } else {
                    assert(rep0[small as int] == small as int);
                    assert(rep0[big as int] == big as int);
                }
            }
            assert forall|y: int| 0 <= y < n && #[trigger] p[y] == y implies rep[y] == y by {
                if y != small as int {
                    assert(p0[y] == y);
                    assert(rep0[y] == y);
                }
            }
            assert forall|y: int| 0 <= y < n implies #[trigger] rank[y] < self.bound@ by {}
            assert forall|y: int| 0 <= y < n && #[trigger] p[y] != y implies rank[y] < rank[p[y] as int] by {
                if y != small as int {
                    assert(p[y] == p0[y]);
                    assert(rank0[y] < rank0[p0[y] as int]);
                }
            }
        }
        big
    }
}

// ---------------------------------------------------------------------------
// Pruning dangling edges
// ---------------------------------------------------------------------------

/// `s` without the entries equal to `v`.
pub open spec fn without(s: Seq<u32>, v: u32) -> Seq<u32>
    decreases s.len(),
{
    if s.len() == 0 {
        s
    } else if s.last() == v {
        without(s.drop_last(), v)
    } else {
        without(s.drop_last(), v).push(s.last())
    }
}

/// Removing vertex `v`, whose one neighbour is `u`: the list of `v` is
/// emptied, then `v` leaves the list of `u`.
pub open spec fn peel(adj: Seq<Seq<u32>>, v: int) -> Seq<Seq<u32>> {
    let u = adj[v][0] as int;
    let a = adj.update(v, Seq::empty());
    a.update(u, without(a[u], v as u32))
}

/// The adjacency after removing the vertices of `vs` in turn, each with
/// exactly one neighbour when its turn comes (`None` if one has not).
pub open spec fn peeled(adj: Seq<Seq<u32>>, vs: Seq<u32>) -> Option<Seq<Seq<u32>>>
    decreases vs.len(),
{
    if vs.len() == 0 {
        Some(adj)
    } else {
        match peeled(adj, vs.drop_last()) {
            None => None,
            Some(a) => {
                let v = vs.last() as int;
                if v < a.len() && a[v].len() == 1 && a[v][0] < a.len() {
                    Some(peel(a, v))
                } else {
                    None
                }
            },
        }
    }
}

/// No vertex has exactly one neighbour.
pub open spec fn no_leaf(adj: Seq<Seq<u32>>) -> bool {
    forall|v: int| 0 <= v < adj.len() ==> #[trigger] adj[v].len() != 1
}

/// Every neighbour is a vertex of the graph.
pub open spec fn in_range(adj: Seq<Seq<u32>>) -> bool {
    forall|v: int, k: int| 0 <= v < adj.len() && 0 <= k < adj[v].len() ==> #[trigger] adj[v][k] < adj.len()
}

/// The number of adjacency entries.
pub open spec fn total(adj: Seq<Seq<u32>>) -> nat
    decreases adj.len(),
{
    if adj.len() == 0 {
        0
    } else {
        total(adj.drop_last()) + adj.last().len()
    }
}

proof fn lemma_without(s: Seq<u32>, v: u32)
    ensures
        without(s, v).len() <= s.len(),
        forall|k: int| 0 <= k < without(s, v).len() ==> s.contains(#[trigger] without(s, v)[k]),
    decreases s.len(),
{
    if s.len() > 0 {
        lemma_without(s.drop_last(), v);
        let r = without(s.drop_last(), v);
        assert forall|k: int| 0 <= k < without(s, v).len() implies s.contains(#[trigger] without(s, v)[k]) by {
            if k < r.len() {
                let j = choose|j: int| 0 <= j < s.drop_last().len() && s.drop_last()[j] == r[k];
                assert(s[j] == r[k]);
            } else {
                assert(s[s.len() - 1] == without(s, v)[k]);
            }
        }
    }
}

pub(crate) proof fn lemma_total_update(adj: Seq<Seq<u32>>, i: int, s: Seq<u32>)
    requires
        0 <= i < adj.len(),
    ensures
        total(adj.update(i, s)) + adj[i].len() == total(adj) + s.len(),
    decreases adj.len(),
{
    let b = adj.update(i, s);
    if i == adj.len() - 1 {
        assert(b.drop_last() =~= adj.drop_last());
    } else {
        lemma_total_update(adj.drop_last(), i, s);
        assert(b.drop_last() =~= adj.drop_last().update(i, s));
    }
}

proof fn lemma_peel(adj: Seq<Seq<u32>>, v: int)
    requires
        in_range(adj),
        0 <= v < adj.len(),
        adj[v].len() == 1,
    ensures
        in_range(peel(adj, v)),
        peel(adj, v).len() == adj.len(),
        total(peel(adj, v)) < total(adj),
        peel(adj, v)[v].len() == 0 || v == adj[v][0],
        forall|w: int| 0 <= w < adj.len() && w != v && w != adj[v][0] ==> #[trigger] peel(adj, v)[w] == adj[w],
{
    let u = adj[v][0] as int;
    let a = adj.update(v, Seq::empty());
    let r = without(a[u], v as u32);
    lemma_without(a[u], v as u32);
    lemma_total_update(adj, v, Seq::empty());
    lemma_total_update(a, u, r);
    let p = peel(adj, v);
    assert forall|w: int, k: int| 0 <= w < p.len() && 0 <= k < p[w].len() implies #[trigger] p[w][k] < p.len() by {
        if w == u {
            let j = choose|j: int| 0 <= j < a[u].len() && a[u][j] == r[k];
            assert(a[u][j] < a.len());
        } else {
            assert(p[w][k] == adj[w][k]);
        }
    }
}

proof fn lemma_peeled_push(adj: Seq<Seq<u32>>, vs: Seq<u32>, a: Seq<Seq<u32>>, v: u32)
    requires
        peeled(adj, vs) == Some(a),
        v < a.len(),
        a[v as int].len() == 1,
        a[v as int][0] < a.len(),
    ensures
        peeled(adj, vs.push(v)) == Some(peel(a, v as int)),
{
    assert(vs.push(v).drop_last() =~= vs);
}

/// `s` without the entries equal to `v`.
fn without_exec(s: &Vec<u32>, v: u32) -> (r: Vec<u32>)
    ensures
        r@ == without(s@, v),
{
    let mut r: Vec<u32> = Vec::new();
    let mut i: usize = 0;
    while i < s.len()
        invariant
            i <= s.len(),
            r@ == without(s@.take(i as int), v),
        decreases s.len() - i,
    {
        assert(s@.take(i + 1).drop_last() =~= s@.take(i as int));
        if s[i] != v {
            r.push(s[i]);
        }
        i += 1;
    }
    assert(s@.take(s.len() as int) =~= s@);
    r
}

/// Removes vertices with exactly one neighbour, again and again, until
/// none is left: no walk along the graph's faces then runs into a spike.
pub fn prune_dangling(adj: &mut Vec<Vec<u32>>)
    requires
        old(adj).len() <= u32::MAX,
        in_range(old(adj).deep_view()),
    ensures
        final(adj).len() == old(adj).len(),
        no_leaf(final(adj).deep_view()),
        exists|vs: Seq<u32>| peeled(old(adj).deep_view(), vs) == Some(final(adj).deep_view()),
{
    let ghost a0 = adj.deep_view();
    let n = adj.len();
    let mut stack: Vec<u32> = Vec::new();
    let mut w: usize = 0;
    while w < n
        invariant
            n == adj.len(),
            n <= u32::MAX,
            w <= n,
            adj.deep_view() == a0,
            forall|k: int| 0 <= k < stack.len() ==> #[trigger] stack[k] < n,
            forall|x: int| 0 <= x < w && #[trigger] a0[x].len() == 1 ==> stack@.contains(x as u32),
        decreases n - w,
    {
        if adj[w].len() == 1 {
            let ghost s0 = stack@;
            stack.push(w as u32);
            assert forall|x: int| 0 <= x <= w && #[trigger] a0[x].len() == 1 implies stack@.contains(x as u32) by {
                if x == w {
                    assert(stack@[stack.len() - 1] == w as u32);
                } else {
                    let j = choose|j: int| 0 <= j < s0.len() && s0[j] == x as u32;
                    assert(stack@[j] == s0[j]);
                }
            }
        }
        w += 1;
    }
    let ghost mut removed: Seq<u32> = Seq::empty();
    while stack.len() > 0
        invariant
            adj.len() == n,
            n <= u32::MAX,
            a0.len() == n,
            in_range(adj.deep_view()),
            peeled(a0, removed) == Some(adj.deep_view()),
            forall|k: int| 0 <= k < stack.len() ==> #[trigger] stack[k] < n,
            forall|x: int| 0 <= x < n && #[trigger] adj.deep_view()[x].len() == 1 ==> stack@.contains(x as u32),
        decreases total(adj.deep_view()) + stack.len(),
    {
        let ghost before = adj.deep_view();
        let ghost st = stack@;
        let v = stack.pop().unwrap();
        assert(st =~= stack@.push(v));
        if adj[v as usize].len() != 1 {
            assert forall|x: int| 0 <= x < n && #[trigger] adj.deep_view()[x].len() == 1 implies stack@.contains(x as u32) by {
                assert(st.contains(x as u32));
                let j = choose|j: int| 0 <= j < st.len() && st[j] == x as u32;
                assert(j != st.len() - 1);
                assert(stack@[j] == x as u32);
            }
            continue;
        }
        let u = adj[v as usize][0];
        assert(adj.deep_view()[v as int][0] == u);
        assert(u < n);
        proof {
            lemma_peel(before, v as int);
            lemma_peeled_push(a0, removed, before, v);
        }
        adj.set(v as usize, Vec::new());
        let ghost mid = before.update(v as int, Seq::empty());
        assert(adj.deep_view() =~= mid) by {
            assert forall|x: int| 0 <= x < n implies #[trigger] adj.deep_view()[x] == mid[x] by {
                if x == v as int {
                    assert(adj@[x]@ =~= Seq::<u32>::empty());
                }
            }
        }
        assert(adj@[u as int]@ == adj.deep_view()[u as int]);
        let kept = without_exec(&adj[u as usize], v);
        assert(kept@ == without(mid[u as int], v));
        adj.set(u as usize, kept);
        assert(adj.deep_view() =~= peel(before, v as int)) by {
            assert forall|x: int| 0 <= x < n implies #[trigger] adj.deep_view()[x] == peel(before, v as int)[x] by {
                if x != u as int {
                    assert(adj.deep_view()[x] == mid[x]);
                }
            }
        }
        proof {
            removed = removed.push(v);
        }
        if adj[u as usize].len() == 1 {
            stack.push(u);
            assert(stack@[stack.len() - 1] == u);
        }
        assert forall|x: int| 0 <= x < n && #[trigger] adj.deep_view()[x].len() == 1 implies stack@.contains(x as u32) by {
            if x == u as int {
                assert(stack@[stack.len() - 1] == u);
            } else {
                assert(x != v as int);
                assert(adj.deep_view()[x] == before[x]);
                assert(st.contains(x as u32));
                let j = choose|j: int| 0 <= j < st.len() && st[j] == x as u32;
                assert(j != st.len() - 1);
                assert(stack@[j] == x as u32);
            }
        }
    }
    assert(no_leaf(adj.deep_view()));
}

} // verus!
