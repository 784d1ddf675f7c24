//! How a hole's rim sits in the mesh: the triangle that runs each rim edge,
//! and the mesh edges that join two rim vertices without being rim edges.
use vstd::prelude::*;
use std::collections::{HashMap, HashSet};

verus! {

broadcast use vstd::std_specs::hash::group_hash_axioms;

/// The number of the ordered pair `(a, b)` of 32-bit values.
pub open spec fn pair_code(a: int, b: int) -> u64 {
    (a * 0x1_0000_0000 + b) as u64
}

pub(crate) proof fn lemma_pair_code(a: int, b: int, c: int, d: int)
    requires
        0 <= a <= u32::MAX,
        0 <= b <= u32::MAX,
        0 <= c <= u32::MAX,
        0 <= d <= u32::MAX,
    ensures
        pair_code(a, b) as int == a * 0x1_0000_0000 + b,
        pair_code(a, b) == pair_code(c, d) ==> a == c && b == d,
{
    assert(a * 0x1_0000_0000 + b <= u64::MAX) by (nonlinear_arith)
        requires
            0 <= a <= u32::MAX,
            0 <= b <= u32::MAX,
    ;
    assert(c * 0x1_0000_0000 + d <= u64::MAX) by (nonlinear_arith)
        requires
            0 <= c <= u32::MAX,
            0 <= d <= u32::MAX,
    ;
    if pair_code(a, b) == pair_code(c, d) {
        assert(a == c && b == d) by (nonlinear_arith)
            requires
                0 <= b <= u32::MAX,
                0 <= d <= u32::MAX,
                a * 0x1_0000_0000 + b == c * 0x1_0000_0000 + d,
        ;
    }
}

pub(crate) fn pair_code_exec(a: u32, b: u32) -> (r: u64)
    ensures
        r == pair_code(a as int, b as int),
{
    proof {
        lemma_pair_code(a as int, b as int, 0, 0);
    }
    a as u64 * 0x1_0000_0000 + b as u64
}

/// The last of the first `k` rim edges (edge `i` runs from rim vertex `i`
/// to the next) that runs from `a` to `b`.
pub open spec fn last_rim_edge(hv: Seq<u32>, a: u32, b: u32, k: int) -> Option<int>
    decreases k,
{
    if k <= 0 {
        None
    } else if hv[k - 1] == a && hv[k % (hv.len() as int)] == b {
        Some(k - 1)
    } else {
        last_rim_edge(hv, a, b, k - 1)
    }
}

/// The rim edge from `a` to `b` (the last one, should there be two).
pub open spec fn rim_edge(hv: Seq<u32>, a: u32, b: u32) -> Option<int> {
    last_rim_edge(hv, a, b, hv.len() as int)
}

/// The first position of `v` on the rim.
pub open spec fn rim_pos(hv: Seq<u32>, v: u32) -> int {
    choose|i: int| 0 <= i < hv.len() && hv[i] == v && forall|j: int| 0 <= j < i ==> hv[j] != v
}

/// The corner after corner `x` in its triangle.
pub open spec fn next_corner(x: int) -> int {
    if x % 3 == 2 {
        x - 2
    } else {
        x + 1
    }
}

/// The last of the first `m` triangle sides that runs rim edge `i`: the
/// triangle it belongs to.
pub open spec fn rim_owner(ind: Seq<u32>, hv: Seq<u32>, i: int, m: int) -> Option<int>
    decreases m,
{
    if m <= 0 {
        None
    } else if rim_edge(hv, ind[m - 1], ind[next_corner(m - 1)]) == Some(i) {
        Some((m - 1) / 3)
    } else {
        rim_owner(ind, hv, i, m - 1)
    }
}

/// The side from `a` to `b` joins two rim vertices but runs along no rim
/// edge, either way.
pub open spec fn is_chord(hv: Seq<u32>, a: u32, b: u32) -> bool {
    hv.contains(a) && hv.contains(b) && rim_edge(hv, a, b) is None && rim_edge(hv, b, a) is None
}

/// A chord as the pair of the rim positions of its ends, smaller first.
pub open spec fn chord_code(hv: Seq<u32>, a: u32, b: u32) -> u64 {
    let (p, q) = (rim_pos(hv, a), rim_pos(hv, b));
    if p < q {
        pair_code(p, q)
    } else {
        pair_code(q, p)
    }
}

/// Side `w` is a chord of number `c`.
#[verifier::opaque]
pub open spec fn chord_at(ind: Seq<u32>, hv: Seq<u32>, w: int, c: u64) -> bool {
    is_chord(hv, ind[w], ind[next_corner(w)]) && chord_code(hv, ind[w], ind[next_corner(w)]) == c
}

/// The chords among the first `m` triangle sides.
pub open spec fn rim_chords(ind: Seq<u32>, hv: Seq<u32>, m: int) -> Set<u64> {
    Set::new(|c: u64| exists|w: int| 0 <= w < m && #[trigger] chord_at(ind, hv, w, c))
}

/// `j` is the first position of `v` on the rim.
pub open spec fn first_at(hv: Seq<u32>, v: u32, j: int) -> bool {
    0 <= j < hv.len() && hv[j] == v && forall|k: int| 0 <= k < j ==> hv[k] != v
}

proof fn lemma_rim_pos(hv: Seq<u32>, v: u32, j: int)
    requires
        first_at(hv, v, j),
    ensures
        rim_pos(hv, v) == j,
{
    let c = rim_pos(hv, v);
    assert(first_at(hv, v, c));
    if c < j {
        assert(hv[c] != v);
    }
    if j < c {
        assert(hv[j] != v);
    }
}

proof fn lemma_last_rim_edge(hv: Seq<u32>, a: u32, b: u32, k: int)
    requires
        0 <= k <= hv.len(),
        last_rim_edge(hv, a, b, k) is Some,
    ensures
        0 <= last_rim_edge(hv, a, b, k)->0 < k,
        hv.contains(a),
        hv.contains(b),
    decreases k,
{
    if hv[k - 1] == a && hv[k % (hv.len() as int)] == b {
        assert(hv[k - 1] == a);
        assert(0 <= k % (hv.len() as int) < hv.len());
    } else {
        lemma_last_rim_edge(hv, a, b, k - 1);
    }
}

proof fn lemma_chords_step(ind: Seq<u32>, h: Seq<u32>, x: int)
    requires
        0 <= x,
    ensures
        forall|c: u64| #[trigger] rim_chords(ind, h, x + 1).contains(c) <==> rim_chords(ind, h, x).contains(c) || chord_at(ind, h, x, c),
{
    assert forall|c: u64| #[trigger] rim_chords(ind, h, x + 1).contains(c) <==> rim_chords(ind, h, x).contains(c) || chord_at(ind, h, x, c) by {
        if rim_chords(ind, h, x + 1).contains(c) {
            let w = choose|w: int| 0 <= w < x + 1 && #[trigger] chord_at(ind, h, w, c);
            if w < x {
                assert(rim_chords(ind, h, x).contains(c));
            }
        }
        if rim_chords(ind, h, x).contains(c) {
            let w = choose|w: int| 0 <= w < x && #[trigger] chord_at(ind, h, w, c);
            assert(rim_chords(ind, h, x + 1).contains(c));
        }
        if chord_at(ind, h, x, c) {
            assert(rim_chords(ind, h, x + 1).contains(c));
        }
    }
}

/// The triangle that runs each rim edge of the hole `hv` (edge `i` runs from
/// rim vertex `i` to the next; the last such triangle, should there be
/// several), and the chords: the sides of the triangles `indices` that join
/// two rim vertices without running along a rim edge either way, each as
/// the pair of the first rim positions of its ends, smaller first,
/// numbered by `pair_code`.
#[verifier::rlimit(40)]
pub fn rim_topology(indices: &[u32], nv: usize, hv: &[u32]) -> (r: (Vec<Option<usize>>, HashSet<u64>))
    requires
        hv@.len() <= u32::MAX,
        forall|k: int| 0 <= k < hv@.len() ==> #[trigger] hv@[k] < nv,
        forall|k: int| 0 <= k < indices@.len() ==> #[trigger] indices@[k] < nv,
    ensures
        r.0@.len() == hv@.len(),
        forall|i: int|
            0 <= i < hv@.len() ==> match #[trigger] r.0@[i] {
                Some(t) => rim_owner(indices@, hv@, i, 3 * (indices@.len() as int / 3)) == Some(t as int),
                None => rim_owner(indices@, hv@, i, 3 * (indices@.len() as int / 3)) is None,
            },
        r.1@ == rim_chords(indices@, hv@, 3 * (indices@.len() as int / 3)),
{
    let n = hv.len();
    let ghost h = hv@;
    let ghost ind = indices@;
    let mut edge_index: HashMap<u64, usize> = HashMap::new();
    let mut loop_index: HashMap<u32, usize> = HashMap::new();
    let mut on_rim: Vec<bool> = Vec::new();
    while on_rim.len() < nv
        invariant
            on_rim@.len() <= nv,
            forall|v: int| 0 <= v < on_rim@.len() ==> !#[trigger] on_rim@[v],
        decreases nv - on_rim@.len(),
    {
        on_rim.push(false);
    }
    let mut i: usize = 0;
    while i < n
        invariant
            n == h.len(),
            h == hv@,
            n <= u32::MAX,
            i <= n,
            on_rim@.len() == nv,
            forall|k: int| 0 <= k < h.len() ==> #[trigger] h[k] < nv,
            forall|v: int| 0 <= v < nv ==> (#[trigger] on_rim@[v] <==> exists|k: int| 0 <= k < i && h[k] as int == v),
            forall|a: u32, b: u32|
                edge_index@.contains_key(pair_code(a as int, b as int)) <==> #[trigger] last_rim_edge(h, a, b, i as int) is Some,
            forall|a: u32, b: u32|
                #[trigger] last_rim_edge(h, a, b, i as int) is Some ==> edge_index@[pair_code(a as int, b as int)] as int
                    == last_rim_edge(h, a, b, i as int)->0,
            forall|v: u32| #[trigger] loop_index@.contains_key(v) <==> h.take(i as int).contains(v),
            forall|v: u32| #[trigger] loop_index@.contains_key(v) ==> first_at(h, v, loop_index@[v] as int),
        decreases n - i,
    {
        let a = hv[i];
        let b = hv[(i + 1) % n];
        let key = pair_code_exec(a, b);
        let ghost e0 = edge_index@;
        let ghost l0 = loop_index@;
        let ghost r0 = on_rim@;
        edge_index.insert(key, i);
        if !loop_index.contains_key(&a) {
            loop_index.insert(a, i);
        }
        on_rim.set(a as usize, true);
        proof {
            let t0 = h.take(i as int);
            let t1 = h.take(i + 1);
            assert(t1 =~= t0.push(a));
            assert forall|v: u32| t1.contains(v) <==> t0.contains(v) || v == a by {
                if t1.contains(v) {
                    let k = choose|k: int| 0 <= k < t1.len() && t1[k] == v;
                    if k < i {
                        assert(t0[k] == v);
                    }
                }
                if t0.contains(v) {
                    let k = choose|k: int| 0 <= k < t0.len() && t0[k] == v;
                    assert(t1[k] == v);
                }
                if v == a {
                    assert(t1[i as int] == v);
                }
            }
            assert forall|v: int| 0 <= v < nv implies (#[trigger] on_rim@[v] <==> exists|k: int| 0 <= k < i + 1 && h[k] as int == v) by {
                if v != a as int {
                    assert(on_rim@[v] == r0[v]);
                } else {
                    assert(h[i as int] as int == v);
                }
            }
            assert(edge_index@ == e0.insert(key, i));
            assert(h[(i + 1) as int % (n as int)] == b);
            assert forall|a2: u32, b2: u32|
                edge_index@.contains_key(pair_code(a2 as int, b2 as int)) <==> #[trigger] last_rim_edge(h, a2, b2, i + 1) is Some by {
                lemma_pair_code(a2 as int, b2 as int, a as int, b as int);
                if a2 == a && b2 == b {
                    assert(last_rim_edge(h, a2, b2, i + 1) == Some(i as int));
                } else {
                    assert(last_rim_edge(h, a2, b2, i + 1) == last_rim_edge(h, a2, b2, i as int));
                }
            }
            assert forall|a2: u32, b2: u32|
                #[trigger] last_rim_edge(h, a2, b2, i + 1) is Some implies edge_index@[pair_code(a2 as int, b2 as int)] as int
                    == last_rim_edge(h, a2, b2, i + 1)->0 by {
                lemma_pair_code(a2 as int, b2 as int, a as int, b as int);
                if a2 == a && b2 == b {
                    assert(last_rim_edge(h, a2, b2, i + 1) == Some(i as int));
                } else {
                    assert(last_rim_edge(h, a2, b2, i + 1) == last_rim_edge(h, a2, b2, i as int));
                }
            }
            assert forall|v: u32| #[trigger] loop_index@.contains_key(v) implies first_at(h, v, loop_index@[v] as int) by {
                if v == a && !l0.contains_key(a) {
                    assert forall|k: int| 0 <= k < i implies h[k] != v by {
                        if h[k] == v {
                            assert(t0[k] == v);
                        }
                    }
                } else {
                    assert(l0.contains_key(v));
                }
            }
        }
        i += 1;
    }
    assert(h.take(n as int) =~= h);
    assert forall|a: u32| (a as int) < nv implies (#[trigger] on_rim@[a as int] <==> h.contains(a)) by {
        if on_rim@[a as int] {
            let k = choose|k: int| 0 <= k < n && h[k] as int == a as int;
            assert(h[k] == a);
        }
        if h.contains(a) {
            let k = choose|k: int| 0 <= k < n && h[k] == a;
            assert(h[k] as int == a as int);
        }
    }
    let nt = indices.len() / 3;
    assert(3 * nt <= indices@.len()) by (nonlinear_arith)
        requires
            nt == indices@.len() / 3,
    ;
    let m = 3 * nt;
    let mut owners: Vec<Option<usize>> = Vec::new();
    while owners.len() < n
        invariant
            owners@.len() <= n,
            forall|q: int| 0 <= q < owners@.len() ==> #[trigger] owners@[q] is None,
        decreases n - owners@.len(),
    {
        owners.push(None);
    }
    let mut chords: HashSet<u64> = HashSet::new();
    proof {
        assert(chords@ =~= rim_chords(ind, h, 0));
    }
    let mut x: usize = 0;
    while x < m
        invariant
            n == h.len(),
            h == hv@,
            ind == indices@,
            n <= u32::MAX,
            nt == ind.len() / 3,
            m == 3 * nt,
            m <= ind.len(),
            x <= m,
            on_rim@.len() == nv,
            forall|k: int| 0 <= k < ind.len() ==> #[trigger] ind[k] < nv,
            forall|a: u32| (a as int) < nv ==> (#[trigger] on_rim@[a as int] <==> h.contains(a)),
            forall|a: u32, b: u32|
                edge_index@.contains_key(pair_code(a as int, b as int)) <==> #[trigger] last_rim_edge(h, a, b, n as int) is Some,
            forall|a: u32, b: u32|
                #[trigger] last_rim_edge(h, a, b, n as int) is Some ==> edge_index@[pair_code(a as int, b as int)] as int
                    == last_rim_edge(h, a, b, n as int)->0,
            forall|v: u32| #[trigger] loop_index@.contains_key(v) <==> h.contains(v),
            forall|v: u32| #[trigger] loop_index@.contains_key(v) ==> first_at(h, v, loop_index@[v] as int),
            owners@.len() == n,
            forall|q: int|
                0 <= q < n ==> match #[trigger] owners@[q] {
                    Some(t) => rim_owner(ind, h, q, x as int) == Some(t as int),
                    None => rim_owner(ind, h, q, x as int) is None,
                },
            chords@ == rim_chords(ind, h, x as int),
        decreases m - x,
    {
        let y = if x % 3 == 2 {
            x - 2
        } else {
            x + 1
        };
        assert(y == next_corner(x as int));
        let a = indices[x];
        let b = indices[y];
        let ghost own0 = owners@;
        let ghost ch0 = chords@;
        let ghost side_edge = rim_edge(h, a, b);
        if on_rim[a as usize] && on_rim[b as usize] {
            let kab = pair_code_exec(a, b);
            match edge_index.get(&kab) {
                Some(iref) => {
                    let i0 = *iref;
                    assert(side_edge == Some(i0 as int));
                    proof {
                        lemma_last_rim_edge(h, a, b, n as int);
                    }
                    owners.set(i0, Some(x / 3));
                    assert(!is_chord(h, a, b));
                },
                None => {
                    assert(side_edge is None);
                    let kba = pair_code_exec(b, a);
                    if !edge_index.contains_key(&kba) {
                        assert(rim_edge(h, b, a) is None);
                        assert(h.contains(a) && h.contains(b));
                        let ia = *loop_index.get(&a).unwrap();
                        let ib = *loop_index.get(&b).unwrap();
                        proof {
                            lemma_rim_pos(h, a, ia as int);
                            lemma_rim_pos(h, b, ib as int);
                        }
                        let c = if ia < ib {
                            pair_code_exec(ia as u32, ib as u32)
                        } else {
                            pair_code_exec(ib as u32, ia as u32)
                        };
                        assert(c == chord_code(h, a, b));
                        chords.insert(c);
                        assert(is_chord(h, a, b));
                    } else {
                        assert(rim_edge(h, b, a) is Some);
                        assert(!is_chord(h, a, b));
                    }
                },
            }
        } else {
            proof {
                if side_edge is Some {
                    lemma_last_rim_edge(h, a, b, n as int);
                }
            }
            assert(side_edge is None);
            assert(!is_chord(h, a, b));
        }
        proof {
            assert forall|q: int|
                0 <= q < n implies match #[trigger] owners@[q] {
                    Some(t) => rim_owner(ind, h, q, x + 1) == Some(t as int),
                    None => rim_owner(ind, h, q, x + 1) is None,
                } by {
                assert(rim_owner(ind, h, q, x + 1) == if side_edge == Some(q) {
                    Some(x as int / 3)
                } else {
                    rim_owner(ind, h, q, x as int)
                });
                if side_edge != Some(q) {
                    assert(owners@[q] == own0[q]);
                }
            }
            lemma_chords_step(ind, h, x as int);
            reveal(chord_at);
            assert(chords@ =~= rim_chords(ind, h, x + 1));
        }
        x += 1;
    }
    (owners, chords)
}

} // verus!
