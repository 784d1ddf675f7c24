//! The topology checks of a rebuilt hole patch: every triangle side is
//! walked once, the patch closes the hole against its rim, and it adds no
//! edge that the mesh already has between two rim vertices.
use vstd::prelude::*;
use std::collections::{HashMap, HashSet};
use super::rim::{lemma_pair_code, pair_code, pair_code_exec};

verus! {

broadcast use vstd::std_specs::hash::group_hash_axioms;

/// Why a rebuilt patch is refused.
#[derive(Debug, Clone, Copy, PartialEq, Eq, Structural)]
pub enum PatchError {
    /// A triangle has (next to) no area.
    Degenerate,
    /// A triangle side is walked twice in one direction.
    NotManifold,
    /// The patch leaves a gap, or runs a rim edge the way the mesh does.
    NotClosed,
    /// The patch adds an edge that the mesh has between two rim vertices.
    DuplicatesEdge,
}

/// Side `x` of the patch: side `x % 3` of triangle `x / 3`, directed.
pub open spec fn pside(tris: Seq<[usize; 3]>, x: int) -> (usize, usize) {
    (tris[x / 3][x % 3], tris[x / 3][(x % 3 + 1) % 3])
}

/// An earlier side runs the same way as side `x`.
pub open spec fn repeats(tris: Seq<[usize; 3]>, x: int) -> bool {
    exists|y: int| 0 <= y < x && pside(tris, y) == pside(tris, x)
}

/// Triangle `t` is degenerate or walks a side already walked.
pub open spec fn bad_tri(tris: Seq<[usize; 3]>, deg: Seq<bool>, t: int) -> bool {
    deg[t] || repeats(tris, 3 * t) || repeats(tris, 3 * t + 1) || repeats(tris, 3 * t + 2)
}

/// The first bad triangle among the first `k`.
pub open spec fn first_bad_tri(tris: Seq<[usize; 3]>, deg: Seq<bool>, k: int) -> Option<int>
    decreases k,
{
    if k <= 0 {
        None
    } else {
        match first_bad_tri(tris, deg, k - 1) {
            Some(t) => Some(t),
            None => if bad_tri(tris, deg, k - 1) {
                Some(k - 1)
            } else {
                None
            },
        }
    }
}

/// Some side of the patch runs from `a` to `b`.
pub open spec fn has_side(tris: Seq<[usize; 3]>, a: usize, b: usize) -> bool {
    exists|x: int| 0 <= x < 3 * tris.len() && pside(tris, x) == (a, b)
}

/// `a -> b` is a rim edge (rim vertices are numbered `0..n` along the rim).
pub open spec fn rim_step(n: int, a: int, b: int) -> bool {
    a < n && b < n && (a + 1) % n == b
}

/// The side from `a` to `b` leaves the patch open: it runs a rim edge the
/// way the mesh does, or nothing runs it back.
pub open spec fn open_side(tris: Seq<[usize; 3]>, n: int, a: usize, b: usize) -> bool {
    rim_step(n, a as int, b as int) || (!rim_step(n, b as int, a as int) && !has_side(tris, b, a))
}

/// The side from `a` to `b` joins two rim vertices that the mesh already
/// joins (a chord, numbered as `rim_topology` numbers them).
pub open spec fn chord_side(chords: Set<u64>, n: int, a: usize, b: usize) -> bool {
    a < n && b < n && chords.contains(
        if a < b {
            pair_code(a as int, b as int)
        } else {
            pair_code(b as int, a as int)
        },
    )
}

pub open spec fn flawed(tris: Seq<[usize; 3]>, n: int, chords: Set<u64>, x: int) -> bool {
    open_side(tris, n, pside(tris, x).0, pside(tris, x).1) || chord_side(chords, n, pside(tris, x).0, pside(tris, x).1)
}

/// The first flawed side among the first `k`.
pub open spec fn first_flawed(tris: Seq<[usize; 3]>, n: int, chords: Set<u64>, k: int) -> Option<int>
    decreases k,
{
    if k <= 0 {
        None
    } else {
        match first_flawed(tris, n, chords, k - 1) {
            Some(x) => Some(x),
            None => if flawed(tris, n, chords, k - 1) {
                Some(k - 1)
            } else {
                None
            },
        }
    }
}

/// The triangle with the side from `a` to `b`.
pub open spec fn side_tri(tris: Seq<[usize; 3]>, a: usize, b: usize) -> int {
    (choose|x: int| 0 <= x < 3 * tris.len() && pside(tris, x) == (a, b)) / 3
}

/// The outcome of the checks: the first bad triangle; else the first flawed
/// side; else a rim edge that no side runs back; else, for each rim edge
/// `i -> i + 1`, the triangle that runs it back.
pub open spec fn patch_check(tris: Seq<[usize; 3]>, deg: Seq<bool>, n: int, chords: Set<u64>) -> Result<Seq<int>, PatchError> {
    match first_bad_tri(tris, deg, tris.len() as int) {
        Some(t) => Err(
            if deg[t] {
                PatchError::Degenerate
            } else {
                PatchError::NotManifold
            },
        ),
        None => match first_flawed(tris, n, chords, 3 * tris.len() as int) {
            Some(x) => Err(
                if open_side(tris, n, pside(tris, x).0, pside(tris, x).1) {
                    PatchError::NotClosed
                } else {
                    PatchError::DuplicatesEdge
                },
            ),
            None => if forall|i: int| 0 <= i < n ==> #[trigger] has_side(tris, ((i + 1) % n) as usize, i as usize) {
                Ok(Seq::new(n as nat, |i: int| side_tri(tris, ((i + 1) % n) as usize, i as usize)))
            } else {
                Err(PatchError::NotClosed)
            },
        },
    }
}

proof fn lemma_first_bad_stays(tris: Seq<[usize; 3]>, deg: Seq<bool>, k: int, k2: int)
    requires
        k <= k2,
        first_bad_tri(tris, deg, k) is Some,
    ensures
        first_bad_tri(tris, deg, k2) == first_bad_tri(tris, deg, k),
    decreases k2 - k,
{
    if k < k2 {
        lemma_first_bad_stays(tris, deg, k, k2 - 1);
    }
}

proof fn lemma_first_flawed_stays(tris: Seq<[usize; 3]>, n: int, chords: Set<u64>, k: int, k2: int)
    requires
        k <= k2,
        first_flawed(tris, n, chords, k) is Some,
    ensures
        first_flawed(tris, n, chords, k2) == first_flawed(tris, n, chords, k),
    decreases k2 - k,
{
    if k < k2 {
        lemma_first_flawed_stays(tris, n, chords, k, k2 - 1);
    }
}

/// The map from the code of each side walked so far (the first `c`) to
/// its triangle, no side walked twice.
pub open spec fn edges_ok(tris: Seq<[usize; 3]>, m: Map<u64, usize>, c: int) -> bool {
    &&& forall|x: int| 0 <= x < c ==> !#[trigger] repeats(tris, x)
    &&& forall|x: int|
        0 <= x < c ==> #[trigger] m.contains_key(pair_code(pside(tris, x).0 as int, pside(tris, x).1 as int))
            && m[pair_code(pside(tris, x).0 as int, pside(tris, x).1 as int)] as int == x / 3
    &&& forall|a: usize, b: usize|
        a <= u32::MAX && b <= u32::MAX && #[trigger] m.contains_key(pair_code(a as int, b as int)) ==> exists|x: int|
            0 <= x < c && pside(tris, x) == (a, b)
}

proof fn lemma_side_unique(tris: Seq<[usize; 3]>, c: int, x: int, y: int)
    requires
        forall|z: int| 0 <= z < c ==> !#[trigger] repeats(tris, z),
        0 <= x < c,
        0 <= y < c,
        pside(tris, x) == pside(tris, y),
    ensures
        x == y,
{
    if x < y {
        assert(repeats(tris, y));
    }
    if y < x {
        assert(repeats(tris, x));
    }
}

/// Checks the topology of a rebuilt patch (rim vertices numbered `0..n`
/// along the rim, new vertices after them), whose degenerate triangles are
/// flagged in `degenerate`, against the chords of the rim (as
/// `rim_topology` gives them). Returns, for each rim edge `i -> i + 1`, the
/// patch triangle that runs it back.
pub fn check_patch_topology(tris: &[[usize; 3]], degenerate: &[bool], n: usize, chords: &HashSet<u64>) -> (r: Result<Vec<usize>, PatchError>)
    requires
        degenerate@.len() == tris@.len(),
        n <= u32::MAX,
        3 * tris@.len() <= usize::MAX,
        forall|t: int, e: int| 0 <= t < tris@.len() && 0 <= e < 3 ==> #[trigger] tris@[t][e] <= u32::MAX,
    ensures
        match (r, patch_check(tris@, degenerate@, n as int, chords@)) {
            (Ok(v), Ok(s)) => v@.len() == s.len() && forall|i: int| 0 <= i < s.len() ==> #[trigger] v@[i] as int == s[i],
            (Err(e), Err(f)) => e == f,
            _ => false,
        },
{
    let m = tris.len();
    let ghost ts = tris@;
    let ghost deg = degenerate@;
    let ghost ch = chords@;
    let mut edges: HashMap<u64, usize> = HashMap::new();
    let mut t: usize = 0;
    while t < m
        invariant
            ts == tris@,
            deg == degenerate@,
            m == ts.len(),
            deg.len() == m,
            3 * m <= usize::MAX,
            t <= m,
            forall|t2: int, e: int| 0 <= t2 < ts.len() && 0 <= e < 3 ==> #[trigger] ts[t2][e] <= u32::MAX,
            first_bad_tri(ts, deg, t as int) is None,
            edges_ok(ts, edges@, 3 * t),
        decreases m - t,
    {
        if degenerate[t] {
            proof {
                lemma_first_bad_stays(ts, deg, t + 1, m as int);
            }
            return Err(PatchError::Degenerate);
        }
        let tri = tris[t];
        let mut e: usize = 0;
        while e < 3
            invariant
                ts == tris@,
                deg == degenerate@,
                m == ts.len(),
                deg.len() == m,
                t < m,
                3 * m <= usize::MAX,
                !deg[t as int],
                tri == ts[t as int],
                forall|t2: int, e2: int| 0 <= t2 < ts.len() && 0 <= e2 < 3 ==> #[trigger] ts[t2][e2] <= u32::MAX,
                first_bad_tri(ts, deg, t as int) is None,
                e <= 3,
                edges_ok(ts, edges@, 3 * t + e),
            decreases 3 - e,
        {
            let x = 3 * t + e;
            let a = tri[e];
            let b = tri[(e + 1) % 3];
            assert(pside(ts, x as int) == (a, b)) by {
                assert((3 * t + e) / 3 == t as int && (3 * t + e) % 3 == e as int) by (nonlinear_arith)
                    requires
                        e < 3,
                ;
            }
            assert(a <= u32::MAX && b <= u32::MAX);
            let key = pair_code_exec(a as u32, b as u32);
            let ghost before = edges@;
            match edges.insert(key, t) {
                Some(_) => {
                    proof {
                        let y = choose|y: int| 0 <= y < x && pside(ts, y) == (a, b);
                        assert(repeats(ts, x as int));
                        assert(bad_tri(ts, deg, t as int)) by {
                            if e == 0 {
                                assert(repeats(ts, 3 * t));
                            } else if e == 1 {
                                assert(repeats(ts, 3 * t + 1));
                            } else {
                                assert(repeats(ts, 3 * t + 2));
                            }
                        }
                        lemma_first_bad_stays(ts, deg, t + 1, m as int);
                    }
                    return Err(PatchError::NotManifold);
                },
                None => {},
            }
            proof {
                assert(!repeats(ts, x as int)) by {
                    if repeats(ts, x as int) {
                        let y = choose|y: int| 0 <= y < x && pside(ts, y) == pside(ts, x as int);
                        let (c, d) = pside(ts, y);
                        assert(ts[y / 3][y % 3] <= u32::MAX && ts[y / 3][(y % 3 + 1) % 3] <= u32::MAX);
                        assert(before.contains_key(pair_code(c as int, d as int)));
                    }
                }
                assert forall|z: int| 0 <= z < x + 1 implies #[trigger] edges@.contains_key(pair_code(pside(ts, z).0 as int, pside(ts, z).1 as int))
                    && edges@[pair_code(pside(ts, z).0 as int, pside(ts, z).1 as int)] as int == z / 3 by {
                    if z < x {
                        let (c, d) = pside(ts, z);
                        assert(ts[z / 3][z % 3] <= u32::MAX && ts[z / 3][(z % 3 + 1) % 3] <= u32::MAX);
                        lemma_pair_code(c as int, d as int, a as int, b as int);
                        assert(pside(ts, z) != pside(ts, x as int)) by {
                            if pside(ts, z) == pside(ts, x as int) {
                                assert(repeats(ts, x as int));
                            }
                        }
                        assert(before.contains_key(pair_code(c as int, d as int)));
                        assert(edges@[pair_code(c as int, d as int)] == before[pair_code(c as int, d as int)]);
                    } else {
                        assert((3 * t + e) / 3 == t as int) by (nonlinear_arith)
                            requires
                                e < 3,
                        ;
                    }
                }
                assert forall|c: usize, d: usize|
                    c <= u32::MAX && d <= u32::MAX && #[trigger] edges@.contains_key(pair_code(c as int, d as int)) implies exists|z: int|
                    0 <= z < x + 1 && pside(ts, z) == (c, d) by {
                    lemma_pair_code(c as int, d as int, a as int, b as int);
                    if c == a && d == b {
                        assert(pside(ts, x as int) == (c, d));
                    } else {
                        assert(before.contains_key(pair_code(c as int, d as int)));
                        let z = choose|z: int| 0 <= z < x && pside(ts, z) == (c, d);
                    }
                }
                assert forall|z: int| 0 <= z < x + 1 implies !#[trigger] repeats(ts, z) by {
                    if z < x {
                        assert(!repeats(ts, z));
                    }
                }
                assert(edges_ok(ts, edges@, x + 1));
            }
            e += 1;
        }
        proof {
            assert(!bad_tri(ts, deg, t as int));
        }
        t += 1;
    }
    assert(first_bad_tri(ts, deg, ts.len() as int) is None);
    let ghost all = edges@;
    // Every side runs back or is a rim edge the right way, and no side
    // repeats an edge of the mesh.
    let mut x: usize = 0;
    while x < 3 * m
        invariant
            ts == tris@,
            ch == chords@,
            m == ts.len(),
            3 * m <= usize::MAX,
            n <= u32::MAX,
            x <= 3 * m,
            forall|t2: int, e: int| 0 <= t2 < ts.len() && 0 <= e < 3 ==> #[trigger] ts[t2][e] <= u32::MAX,
            edges@ == all,
            edges_ok(ts, all, 3 * m),
            deg == degenerate@,
            first_bad_tri(ts, deg, m as int) is None,
            first_flawed(ts, n as int, ch, x as int) is None,
        decreases 3 * m - x,
    {
        let tt = x / 3;
        let e = x % 3;
        let a = tris[tt][e];
        let b = tris[tt][(e + 1) % 3];
        assert(pside(ts, x as int) == (a, b));
        assert(a <= u32::MAX && b <= u32::MAX);
        let rim_ab = a < n && b < n && (a + 1) % n == b;
        let rim_ba = b < n && a < n && (b + 1) % n == a;
        let back = pair_code_exec(b as u32, a as u32);
        let has_back = edges.contains_key(&back);
        proof {
            if has_back {
                assert(has_side(ts, b, a));
            }
            if has_side(ts, b, a) {
                let z = choose|z: int| 0 <= z < 3 * ts.len() && pside(ts, z) == (b, a);
                assert(all.contains_key(pair_code(pside(ts, z).0 as int, pside(ts, z).1 as int)));
            }
        }
        assert(rim_ab == rim_step(n as int, a as int, b as int));
        assert(rim_ba == rim_step(n as int, b as int, a as int));
        if rim_ab || (!rim_ba && !has_back) {
            proof {
                assert(open_side(ts, n as int, a, b));
                assert(flawed(ts, n as int, ch, x as int));
                lemma_first_flawed_stays(ts, n as int, ch, x + 1, 3 * m as int);
            }
            return Err(PatchError::NotClosed);
        }
        if a < n && b < n {
            let code = if a < b {
                pair_code_exec(a as u32, b as u32)
            } else {
                pair_code_exec(b as u32, a as u32)
            };
            if chords.contains(&code) {
                proof {
                    assert(!open_side(ts, n as int, a, b));
                    assert(chord_side(ch, n as int, a, b));
                    assert(flawed(ts, n as int, ch, x as int));
                    lemma_first_flawed_stays(ts, n as int, ch, x + 1, 3 * m as int);
                }
                return Err(PatchError::DuplicatesEdge);
            }
        }
        proof {
            assert(!open_side(ts, n as int, a, b));
            assert(!chord_side(ch, n as int, a, b));
        }
        x += 1;
    }
    // Each rim edge is run back by a triangle.
    let mut owners: Vec<usize> = Vec::new();
    let mut i: usize = 0;
    while i < n
        invariant
            ts == tris@,
            m == ts.len(),
            n <= u32::MAX,
            i <= n,
            edges@ == all,
            edges_ok(ts, all, 3 * m),
            deg == degenerate@,
            ch == chords@,
            first_bad_tri(ts, deg, m as int) is None,
            first_flawed(ts, n as int, ch, 3 * m as int) is None,
            owners@.len() == i,
            forall|q: int| 0 <= q < i ==> #[trigger] has_side(ts, ((q + 1) % (n as int)) as usize, q as usize),
            forall|q: int| 0 <= q < i ==> #[trigger] owners@[q] as int == side_tri(ts, ((q + 1) % (n as int)) as usize, q as usize),
        decreases n - i,
    {
        let j = (i + 1) % n;
        let key = pair_code_exec(j as u32, i as u32);
        match edges.get(&key) {
            None => {
                proof {
                    if has_side(ts, j, i) {
                        let z = choose|z: int| 0 <= z < 3 * ts.len() && pside(ts, z) == (j, i);
                        assert(all.contains_key(pair_code(pside(ts, z).0 as int, pside(ts, z).1 as int)));
                    }
                    assert(j == ((i as int + 1) % (n as int)) as usize);
                    assert(!has_side(ts, ((i as int + 1) % (n as int)) as usize, (i as int) as usize));
                }
                return Err(PatchError::NotClosed);
            },
            Some(ti) => {
                let ti = *ti;
                proof {
                    let z = choose|z: int| 0 <= z < 3 * m && pside(ts, z) == (j, i);
                    assert(all.contains_key(pair_code(pside(ts, z).0 as int, pside(ts, z).1 as int)));
                    assert(has_side(ts, j, i));
                    let c = choose|x2: int| 0 <= x2 < 3 * ts.len() && pside(ts, x2) == (j, i);
                    lemma_side_unique(ts, 3 * m as int, z, c);
                }
                owners.push(ti);
            },
        }
        i += 1;
    }
    proof {
        let sq = Seq::new(n as nat, |q: int| side_tri(ts, ((q + 1) % (n as int)) as usize, q as usize));
        assert(patch_check(ts, deg, n as int, ch) == Ok::<Seq<int>, PatchError>(sq));
    }
    Ok(owners)
}

} // verus!
