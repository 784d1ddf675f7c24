//! B-Rep topology read off a closed triangle mesh and its face groups:
//! the checks that the mesh is one closed, consistently oriented manifold
//! shell, the faces (connected regions of one group), and the wording of
//! the messages about face groups.
use vstd::prelude::*;
use std::collections::{HashMap, HashSet};
use crate::text::{chars_to_string, decimal, push_decimal};
use crate::graph::{count_components, leaders, lists, symmetric};
use crate::sorting::{par_sort_by_key, sorted_by_key};
use vstd::relations::{sorted_by, total_ordering};
use crate::geom::guided_fill::rim::{lemma_pair_code, pair_code, pair_code_exec};
use crate::geom::boundary::{key_code, key_code_exec};

verus! {

/// The decimal text of a group number, with a leading `-` when negative.
pub open spec fn id_text(i: i32) -> Seq<char> {
    if i < 0 {
        seq!['-'] + decimal((-(i as int)) as nat)
    } else {
        decimal(i as nat)
    }
}

/// The numbers separated by `", "`.
pub open spec fn comma_list(ids: Seq<i32>) -> Seq<char>
    decreases ids.len(),
{
    if ids.len() == 0 {
        seq![]
    } else if ids.len() == 1 {
        id_text(ids[0])
    } else {
        comma_list(ids.drop_last()) + seq![',', ' '] + id_text(ids.last())
    }
}

/// "3, 5 and 7": the numbers separated by commas, the last one by `and`.
pub open spec fn joined_ids(ids: Seq<i32>) -> Seq<char> {
    if ids.len() <= 1 {
        comma_list(ids)
    } else {
        comma_list(ids.drop_last()) + seq![' ', 'a', 'n', 'd', ' '] + id_text(ids.last())
    }
}

fn push_id(out: &mut Vec<char>, i: i32)
    ensures
        final(out)@ == old(out)@ + id_text(i),
{
    if i < 0 {
        out.push('-');
        let m: i64 = -(i as i64);
        push_decimal(out, m as u64);
        assert(old(out)@.push('-') + decimal(m as nat) =~= old(out)@ + (seq!['-'] + decimal(m as nat)));
    } else {
        push_decimal(out, i as u64);
    }
}

/// "3, 5 and 7" style list of group numbers.
pub fn join_ids(ids: &[i32]) -> (s: String)
    ensures
        s@ == joined_ids(ids@),
{
    let n = ids.len();
    let mut out: Vec<char> = Vec::new();
    if n == 0 {
        return chars_to_string(&out);
    }
    // All but the last, separated by ", ".
    let head = if n == 1 {
        1
    } else {
        n - 1
    };
    push_id(&mut out, ids[0]);
    assert(ids@.take(1).drop_last() =~= Seq::<i32>::empty());
    assert(out@ =~= comma_list(ids@.take(1)));
    let mut k: usize = 1;
    while k < head
        invariant
            1 <= k <= head <= n,
            n == ids@.len(),
            out@ == comma_list(ids@.take(k as int)),
        decreases head - k,
    {
        let ghost before = out@;
        out.push(',');
        out.push(' ');
        push_id(&mut out, ids[k]);
        assert(ids@.take(k + 1).drop_last() =~= ids@.take(k as int));
        assert(out@ =~= before + seq![',', ' '] + id_text(ids@[k as int]));
        k += 1;
    }
    if n > 1 {
        let ghost before = out@;
        out.push(' ');
        out.push('a');
        out.push('n');
        out.push('d');
        out.push(' ');
        push_id(&mut out, ids[n - 1]);
        assert(ids@.drop_last() =~= ids@.take(head as int));
        assert(out@ =~= before + seq![' ', 'a', 'n', 'd', ' '] + id_text(ids@.last()));
    } else {
        assert(ids@.take(1) =~= ids@);
    }
    chars_to_string(&out)
}


broadcast use vstd::std_specs::hash::group_hash_axioms;

// ---------------------------------------------------------------------------
// The mesh as a closed, oriented shell
// ---------------------------------------------------------------------------

/// The triangles of `ind`, each turned over when the mesh is inside out.
pub open spec fn oriented(ind: Seq<u32>, flipped: bool) -> Seq<[u32; 3]> {
    Seq::new(
        ind.len() / 3,
        |t: int|
            if flipped {
                [ind[3 * t], ind[3 * t + 2], ind[3 * t + 1]]
            } else {
                [ind[3 * t], ind[3 * t + 1], ind[3 * t + 2]]
            },
    )
}

pub open spec fn is_degenerate(tri: [u32; 3]) -> bool {
    tri[0] == tri[1] || tri[1] == tri[2] || tri[0] == tri[2]
}

/// How many of the first `k` triangles repeat a vertex.
pub open spec fn degenerate_count(tris: Seq<[u32; 3]>, k: int) -> nat
    decreases k,
{
    if k <= 0 {
        0
    } else {
        degenerate_count(tris, k - 1) + if is_degenerate(tris[k - 1]) {
            1nat
        } else {
            0nat
        }
    }
}

/// Directed side `x` of the triangles: side `x % 3` of triangle `x / 3`.
pub open spec fn hside(tris: Seq<[u32; 3]>, x: int) -> (u32, u32) {
    (tris[x / 3][x % 3], tris[x / 3][(x % 3 + 1) % 3])
}

/// An earlier side runs the same way as side `x`.
pub open spec fn hrepeats(tris: Seq<[u32; 3]>, x: int) -> bool {
    exists|y: int| 0 <= y < x && hside(tris, y) == hside(tris, x)
}

/// Some side runs from `a` to `b`.
pub open spec fn has_half(tris: Seq<[u32; 3]>, a: u32, b: u32) -> bool {
    exists|x: int| 0 <= x < 3 * tris.len() && hside(tris, x) == (a, b)
}

/// Among the first `k` sides, how many repeat an earlier one.
pub open spec fn dup_count(tris: Seq<[u32; 3]>, k: int) -> nat
    decreases k,
{
    if k <= 0 {
        0
    } else {
        dup_count(tris, k - 1) + if hrepeats(tris, k - 1) {
            1nat
        } else {
            0nat
        }
    }
}

/// Among the first `k` sides, how many are the first of their direction
/// and are run back by no side: the open directed edges.
pub open spec fn open_count(tris: Seq<[u32; 3]>, k: int) -> nat
    decreases k,
{
    if k <= 0 {
        0
    } else {
        open_count(tris, k - 1) + if !hrepeats(tris, k - 1) && !has_half(tris, hside(tris, k - 1).1, hside(tris, k - 1).0) {
            1nat
        } else {
            0nat
        }
    }
}

/// The last of the first `k` sides that runs from `a` to `b`: its triangle.
pub open spec fn last_half(tris: Seq<[u32; 3]>, a: u32, b: u32, k: int) -> Option<int>
    decreases k,
{
    if k <= 0 {
        None
    } else if hside(tris, k - 1) == (a, b) {
        Some((k - 1) / 3)
    } else {
        last_half(tris, a, b, k - 1)
    }
}

/// The map from the code of each directed side among the first `k` to the
/// last triangle that has it.
pub open spec fn half_map_ok(tris: Seq<[u32; 3]>, m: Map<u64, u32>, k: int) -> bool {
    &&& forall|a: u32, b: u32|
        #[trigger] m.contains_key(pair_code(a as int, b as int)) <==> last_half(tris, a, b, k) is Some
    &&& forall|a: u32, b: u32|
        #[trigger] last_half(tris, a, b, k) is Some ==> m[pair_code(a as int, b as int)] as int == last_half(tris, a, b, k)->0
}

proof fn lemma_last_half_some(tris: Seq<[u32; 3]>, a: u32, b: u32, k: int)
    requires
        0 <= k <= 3 * tris.len(),
    ensures
        last_half(tris, a, b, k) is Some <==> exists|x: int| 0 <= x < k && hside(tris, x) == (a, b),
    decreases k,
{
    if k > 0 {
        lemma_last_half_some(tris, a, b, k - 1);
        if exists|x: int| 0 <= x < k && hside(tris, x) == (a, b) {
            let x = choose|x: int| 0 <= x < k && hside(tris, x) == (a, b);
            if x < k - 1 {
                assert(exists|y: int| 0 <= y < k - 1 && hside(tris, y) == (a, b));
            }
        }
    }
}

proof fn lemma_side_div(t: usize, e: usize)
    requires
        e < 3,
    ensures
        (3 * t + e) as int / 3 == t as int,
        (3 * t + e) as int % 3 == e as int,
{
    assert((3 * t + e) as int / 3 == t as int && (3 * t + e) as int % 3 == e as int) by (nonlinear_arith)
        requires
            e < 3,
    ;
}

/// The triangles of `ind`, turned over when `flipped`.
pub fn oriented_tris(ind: &[u32], flipped: bool) -> (r: Vec<[u32; 3]>)
    ensures
        r@ == oriented(ind@, flipped),
{
    let len = ind.len();
    let nt = len / 3;
    let mut r: Vec<[u32; 3]> = Vec::new();
    let mut t: usize = 0;
    while t < nt
        invariant
            len == ind@.len(),
            nt == len / 3,
            t <= nt,
            r@ == oriented(ind@, flipped).take(t as int),
        decreases nt - t,
    {
        assert(3 * t + 2 < len) by (nonlinear_arith)
            requires
                t < nt,
                nt == len / 3,
        ;
        if flipped {
            r.push([ind[3 * t], ind[3 * t + 2], ind[3 * t + 1]]);
        } else {
            r.push([ind[3 * t], ind[3 * t + 1], ind[3 * t + 2]]);
        }
        t += 1;
        assert(r@ =~= oriented(ind@, flipped).take(t as int));
    }
    assert(oriented(ind@, flipped).take(nt as int) =~= oriented(ind@, flipped));
    r
}

/// How many triangles repeat a vertex.
fn count_degenerate(tris: &Vec<[u32; 3]>) -> (c: usize)
    ensures
        c == degenerate_count(tris@, tris@.len() as int),
{
    let mut c: usize = 0;
    let mut t: usize = 0;
    while t < tris.len()
        invariant
            t <= tris@.len(),
            c == degenerate_count(tris@, t as int),
            c <= t,
        decreases tris@.len() - t,
    {
        let tri = tris[t];
        if tri[0] == tri[1] || tri[1] == tri[2] || tri[0] == tri[2] {
            c += 1;
        }
        t += 1;
    }
    c
}

/// The directed sides by their codes, to the last triangle that has each,
/// and how many sides repeat an earlier one.
fn half_edges(tris: &Vec<[u32; 3]>) -> (r: (HashMap<u64, u32>, usize))
    requires
        tris@.len() <= u32::MAX,
        3 * tris@.len() <= usize::MAX,
    ensures
        half_map_ok(tris@, r.0@, 3 * tris@.len() as int),
        r.1 == dup_count(tris@, 3 * tris@.len() as int),
{
    let ghost ts = tris@;
    let mut half: HashMap<u64, u32> = HashMap::new();
    let mut dup: usize = 0;
    let mut t: usize = 0;
    while t < tris.len()
        invariant
            ts == tris@,
            ts.len() <= u32::MAX,
            3 * ts.len() <= usize::MAX,
            t <= ts.len(),
            half_map_ok(ts, half@, 3 * t),
            dup == dup_count(ts, 3 * t),
            dup <= 3 * t,
        decreases ts.len() - t,
    {
        let tri = tris[t];
        let mut e: usize = 0;
        while e < 3
            invariant
                ts == tris@,
                ts.len() <= u32::MAX,
                3 * ts.len() <= usize::MAX,
                t < ts.len(),
                tri == ts[t as int],
                e <= 3,
                half_map_ok(ts, half@, 3 * t + e),
                dup == dup_count(ts, 3 * t + e),
                dup <= 3 * t + e,
            decreases 3 - e,
        {
            let x = 3 * t + e;
            let a = tri[e];
            let b = tri[(e + 1) % 3];
            proof {
                lemma_side_div(t, e);
            }
            assert(hside(ts, x as int) == (a, b));
            let key = pair_code_exec(a, b);
            let ghost before = half@;
            let old_v = half.insert(key, t as u32);
            proof {
                lemma_last_half_some(ts, a, b, x as int);
                assert(hrepeats(ts, x as int) <==> last_half(ts, a, b, x as int) is Some) by {
                    if last_half(ts, a, b, x as int) is Some {
                        let y = choose|y: int| 0 <= y < x && hside(ts, y) == (a, b);
                        assert(hside(ts, y) == hside(ts, x as int));
                    }
                    if hrepeats(ts, x as int) {
                        let y = choose|y: int| 0 <= y < x && hside(ts, y) == hside(ts, x as int);
                        assert(exists|z: int| 0 <= z < x && hside(ts, z) == (a, b));
                    }
                }
                assert(before.contains_key(key) <==> hrepeats(ts, x as int));
                assert forall|c: u32, d: u32|
                    #[trigger] half@.contains_key(pair_code(c as int, d as int)) <==> last_half(ts, c, d, x + 1) is Some by {
                    lemma_pair_code(c as int, d as int, a as int, b as int);
                }
                assert forall|c: u32, d: u32|
                    #[trigger] last_half(ts, c, d, x + 1) is Some implies half@[pair_code(c as int, d as int)] as int
                        == last_half(ts, c, d, x + 1)->0 by {
                    lemma_pair_code(c as int, d as int, a as int, b as int);
                    if c == a && d == b {
                        assert(last_half(ts, c, d, x + 1) == Some(t as int));
                    } else {
                        assert(last_half(ts, c, d, x + 1) == last_half(ts, c, d, x as int));
                        assert(half@[pair_code(c as int, d as int)] == before[pair_code(c as int, d as int)]);
                    }
                }
            }
            if old_v.is_some() {
                dup += 1;
            }
            e += 1;
        }
        t += 1;
    }
    (half, dup)
}

/// Why a mesh and its face groups give no B-Rep topology.
#[derive(Debug, Clone, PartialEq, Eq)]
pub enum TopoError {
    /// The mesh has no triangles.
    Empty,
    /// The face groups are not one per triangle.
    GroupsMismatch,
    /// This many triangles repeat a vertex.
    Degenerate(usize),
    /// This many directed edges are not run back.
    NotClosed(usize),
    /// This many triangle sides repeat an earlier one.
    NotManifold(usize),
    /// The mesh is this many separate shells.
    Shells(usize),
    /// No triangle has a face group.
    NoGroups,
    /// All triangles form one face.
    SingleFace,
    /// An edge chain ends at a mesh vertex that is no corner.
    ChainEnd,
    /// The boundary of this group (numbered from 1) could not be traced.
    LoopNotTraced(i32),
    /// The boundary of this group (numbered from 1) touches itself.
    LoopTouches(i32),
    /// A face loop has no edge start.
    NoEdgeStart,
    /// A face loop does not use its edges consistently.
    InconsistentLoop,
    /// These groups (numbered from 1) are no disks with holes.
    NotDisk(Vec<i32>),
}

proof fn lemma_no_count(tris: Seq<[u32; 3]>, k: int)
    requires
        0 <= k,
        dup_count(tris, k) == 0,
    ensures
        forall|x: int| 0 <= x < k ==> !#[trigger] hrepeats(tris, x),
    decreases k,
{
    if k > 0 {
        lemma_no_count(tris, k - 1);
    }
}

/// Without repeated sides, a side's triangle is the one its direction
/// leads to.
proof fn lemma_last_half_unique(tris: Seq<[u32; 3]>, x: int, k: int)
    requires
        forall|y: int| 0 <= y < 3 * tris.len() ==> !#[trigger] hrepeats(tris, y),
        0 <= x < k <= 3 * tris.len(),
    ensures
        last_half(tris, hside(tris, x).0, hside(tris, x).1, k) == Some(x / 3),
    decreases k,
{
    if k - 1 > x {
        if hside(tris, k - 1) == hside(tris, x) {
            assert(hrepeats(tris, k - 1));
        }
        lemma_last_half_unique(tris, x, k - 1);
    }
}

/// How many directed edges no side runs back.
fn open_edges(tris: &Vec<[u32; 3]>, half: &HashMap<u64, u32>) -> (c: usize)
    requires
        3 * tris@.len() <= usize::MAX,
        half_map_ok(tris@, half@, 3 * tris@.len() as int),
    ensures
        c == open_count(tris@, 3 * tris@.len() as int),
{
    let ghost ts = tris@;
    let ghost n3 = 3 * ts.len() as int;
    let mut counted: HashSet<u64> = HashSet::new();
    let mut c: usize = 0;
    let mut t: usize = 0;
    while t < tris.len()
        invariant
            ts == tris@,
            n3 == 3 * ts.len(),
            3 * ts.len() <= usize::MAX,
            half_map_ok(ts, half@, n3),
            t <= ts.len(),
            forall|a: u32, b: u32| #[trigger] counted@.contains(pair_code(a as int, b as int)) <==> last_half(ts, a, b, 3 * t) is Some,
            c == open_count(ts, 3 * t),
            c <= 3 * t,
        decreases ts.len() - t,
    {
        let tri = tris[t];
        let mut e: usize = 0;
        while e < 3
            invariant
                ts == tris@,
                n3 == 3 * ts.len(),
                3 * ts.len() <= usize::MAX,
                half_map_ok(ts, half@, n3),
                t < ts.len(),
                tri == ts[t as int],
                e <= 3,
                forall|a: u32, b: u32|
                    #[trigger] counted@.contains(pair_code(a as int, b as int)) <==> last_half(ts, a, b, 3 * t + e) is Some,
                c == open_count(ts, 3 * t + e),
                c <= 3 * t + e,
            decreases 3 - e,
        {
            let x = 3 * t + e;
            let a = tri[e];
            let b = tri[(e + 1) % 3];
            proof {
                lemma_side_div(t, e);
                lemma_last_half_some(ts, a, b, x as int);
                lemma_last_half_some(ts, b, a, n3);
            }
            assert(hside(ts, x as int) == (a, b));
            let key = pair_code_exec(a, b);
            let back = pair_code_exec(b, a);
            proof {
                assert(hrepeats(ts, x as int) <==> counted@.contains(key)) by {
                    if counted@.contains(key) {
                        let y = choose|y: int| 0 <= y < x && hside(ts, y) == (a, b);
                        assert(hside(ts, y) == hside(ts, x as int));
                    }
                    if hrepeats(ts, x as int) {
                        let y = choose|y: int| 0 <= y < x && hside(ts, y) == hside(ts, x as int);
                        assert(exists|z: int| 0 <= z < x && hside(ts, z) == (a, b));
                    }
                }
                assert(has_half(ts, b, a) <==> half@.contains_key(back));
            }
            if !counted.contains(&key) {
                let ghost before = counted@;
                counted.insert(key);
                if !half.contains_key(&back) {
                    c += 1;
                }
                proof {
                    assert forall|p: u32, q: u32|
                        #[trigger] counted@.contains(pair_code(p as int, q as int)) <==> last_half(ts, p, q, x + 1) is Some by {
                        lemma_pair_code(p as int, q as int, a as int, b as int);
                    }
                }
            } else {
                proof {
                    assert forall|p: u32, q: u32|
                        #[trigger] counted@.contains(pair_code(p as int, q as int)) <==> last_half(ts, p, q, x + 1) is Some by {
                        lemma_pair_code(p as int, q as int, a as int, b as int);
                        if p == a && q == b {
                            assert(last_half(ts, p, q, x as int) is Some);
                        }
                    }
                }
            }
            e += 1;
        }
        t += 1;
    }
    c
}

/// The triangle across side `e` of triangle `t`: the one that runs it back.
pub open spec fn twin(tris: Seq<[u32; 3]>, t: int, e: int) -> u32 {
    let (a, b) = hside(tris, 3 * t + e);
    last_half(tris, b, a, 3 * tris.len() as int)->0 as u32
}

/// The triangles across the three sides of each triangle.
pub open spec fn twin_graph(tris: Seq<[u32; 3]>) -> Seq<Seq<u32>> {
    Seq::new(tris.len(), |t: int| seq![twin(tris, t, 0), twin(tris, t, 1), twin(tris, t, 2)])
}

/// No side repeats and every side is run back: a closed, consistently
/// oriented manifold.
pub open spec fn closed_manifold(tris: Seq<[u32; 3]>) -> bool {
    forall|x: int|
        0 <= x < 3 * tris.len() ==> !#[trigger] hrepeats(tris, x) && has_half(tris, hside(tris, x).1, hside(tris, x).0)
}

/// What is wrong with the mesh as a single closed shell, checked in this
/// order; `None` when nothing is.
pub open spec fn shell_problem(ind: Seq<u32>, groups: nat, flipped: bool) -> Option<TopoError> {
    let tris = oriented(ind, flipped);
    let n = tris.len() as int;
    if n == 0 {
        Some(TopoError::Empty)
    } else if groups != n {
        Some(TopoError::GroupsMismatch)
    } else if degenerate_count(tris, n) > 0 {
        Some(TopoError::Degenerate(degenerate_count(tris, n) as usize))
    } else if open_count(tris, 3 * n) > 0 {
        Some(TopoError::NotClosed(open_count(tris, 3 * n) as usize))
    } else if dup_count(tris, 3 * n) > 0 {
        Some(TopoError::NotManifold(dup_count(tris, 3 * n) as usize))
    } else if leaders(twin_graph(tris), n) > 1 {
        Some(TopoError::Shells(leaders(twin_graph(tris), n) as usize))
    } else {
        None
    }
}

proof fn lemma_open_none(tris: Seq<[u32; 3]>, k: int)
    requires
        0 <= k <= 3 * tris.len(),
        open_count(tris, k) == 0,
        forall|x: int| 0 <= x < 3 * tris.len() ==> !#[trigger] hrepeats(tris, x),
    ensures
        forall|x: int| 0 <= x < k ==> #[trigger] has_half(tris, hside(tris, x).1, hside(tris, x).0),
    decreases k,
{
    if k > 0 {
        lemma_open_none(tris, k - 1);
        assert(!hrepeats(tris, k - 1));
    }
}

proof fn lemma_twin(tris: Seq<[u32; 3]>, t: int, e: int)
    requires
        closed_manifold(tris),
        0 <= t < tris.len(),
        0 <= e < 3,
        tris.len() <= u32::MAX,
    ensures
        (twin(tris, t, e) as int) < tris.len(),
        twin_graph(tris)[twin(tris, t, e) as int].contains(t as u32),
{
    let x = 3 * t + e;
    assert(x / 3 == t && x % 3 == e) by (nonlinear_arith)
        requires
            x == 3 * t + e,
            0 <= e < 3,
    ;
    let (a, b) = hside(tris, x);
    assert(!hrepeats(tris, x));
    assert(has_half(tris, b, a));
    let y = choose|y: int| 0 <= y < 3 * tris.len() && hside(tris, y) == (b, a);
    lemma_last_half_unique(tris, y, 3 * tris.len() as int);
    lemma_last_half_unique(tris, x, 3 * tris.len() as int);
    let u = y / 3;
    assert(0 <= u < tris.len());
    assert(twin(tris, t, e) as int == u);
    let f = y % 3;
    assert(y == 3 * u + f);
    assert(twin(tris, u, f) as int == t);
    assert(twin_graph(tris)[u][f] == t as u32);
}

proof fn lemma_twin_graph_symmetric(tris: Seq<[u32; 3]>)
    requires
        closed_manifold(tris),
        tris.len() <= u32::MAX,
    ensures
        symmetric(twin_graph(tris)),
{
    let g = twin_graph(tris);
    assert forall|a: int, j: int| 0 <= a < g.len() && 0 <= j < g[a].len() implies (#[trigger] g[a][j]) < g.len() && g[g[a][j] as int].contains(
        a as u32,
    ) by {
        lemma_twin(tris, a, j);
    }
}

/// The triangles across the sides of each triangle, as adjacency lists.
fn twin_lists(tris: &Vec<[u32; 3]>, half: &HashMap<u64, u32>) -> (adj: Vec<Vec<u32>>)
    requires
        3 * tris@.len() <= usize::MAX,
        tris@.len() <= u32::MAX,
        half_map_ok(tris@, half@, 3 * tris@.len() as int),
        closed_manifold(tris@),
    ensures
        lists(adj@) == twin_graph(tris@),
{
    let ghost ts = tris@;
    let mut adj: Vec<Vec<u32>> = Vec::new();
    let mut t: usize = 0;
    while t < tris.len()
        invariant
            ts == tris@,
            3 * ts.len() <= usize::MAX,
            half_map_ok(ts, half@, 3 * ts.len() as int),
            closed_manifold(ts),
            t <= ts.len(),
            adj@.len() == t,
            forall|u: int| 0 <= u < t ==> #[trigger] adj@[u]@ == twin_graph(ts)[u],
        decreases ts.len() - t,
    {
        let tri = tris[t];
        let mut row: Vec<u32> = Vec::new();
        let mut e: usize = 0;
        while e < 3
            invariant
                ts == tris@,
                3 * ts.len() <= usize::MAX,
                half_map_ok(ts, half@, 3 * ts.len() as int),
                closed_manifold(ts),
                t < ts.len(),
                tri == ts[t as int],
                e <= 3,
                row@.len() == e,
                forall|f: int| 0 <= f < e ==> #[trigger] row@[f] == twin(ts, t as int, f),
            decreases 3 - e,
        {
            let a = tri[e];
            let b = tri[(e + 1) % 3];
            proof {
                lemma_side_div(t, e);
                assert(hside(ts, 3 * t + e) == (a, b));
                assert(!hrepeats(ts, 3 * t + e));
                assert(has_half(ts, b, a));
                lemma_last_half_some(ts, b, a, 3 * ts.len() as int);
            }
            let back = pair_code_exec(b, a);
            let u = *half.get(&back).unwrap();
            row.push(u);
            e += 1;
        }
        assert(row@ =~= twin_graph(ts)[t as int]);
        let ghost before = adj@;
        adj.push(row);
        assert forall|u: int| 0 <= u < t + 1 implies #[trigger] adj@[u]@ == twin_graph(ts)[u] by {
            if u < t {
                assert(adj@[u] == before[u]);
            }
        }
        t += 1;
    }
    assert(lists(adj@) =~= twin_graph(ts));
    adj
}

/// The triangles of `ind` (turned over when `flipped`), and their directed
/// sides, once the mesh is checked to be one closed, consistently oriented
/// manifold shell with a face group per triangle.
fn check_shell(ind: &[u32], groups: usize, flipped: bool) -> (r: Result<(Vec<[u32; 3]>, HashMap<u64, u32>), TopoError>)
    requires
        ind@.len() / 3 <= u32::MAX,
    ensures
        match r {
            Ok((tris, half)) => {
                &&& shell_problem(ind@, groups as nat, flipped) is None
                &&& tris@ == oriented(ind@, flipped)
                &&& half_map_ok(tris@, half@, 3 * tris@.len() as int)
                &&& closed_manifold(tris@)
            },
            Err(e) => shell_problem(ind@, groups as nat, flipped) == Some(e),
        },
{
    let tris = oriented_tris(ind, flipped);
    let ghost ts = tris@;
    let n = tris.len();
    let len = ind.len();
    assert(3 * n <= len) by (nonlinear_arith)
        requires
            n == len / 3,
    ;
    if n == 0 {
        return Err(TopoError::Empty);
    }
    if groups != n {
        return Err(TopoError::GroupsMismatch);
    }
    let degenerate = count_degenerate(&tris);
    if degenerate > 0 {
        return Err(TopoError::Degenerate(degenerate));
    }
    let (half, dup) = half_edges(&tris);
    let open = open_edges(&tris, &half);
    if open > 0 {
        return Err(TopoError::NotClosed(open));
    }
    if dup > 0 {
        return Err(TopoError::NotManifold(dup));
    }
    proof {
        lemma_no_count(ts, 3 * n as int);
        lemma_open_none(ts, 3 * n as int);
    }
    let adj = twin_lists(&tris, &half);
    proof {
        lemma_twin_graph_symmetric(ts);
    }
    let shells = count_components(&adj);
    if shells > 1 {
        return Err(TopoError::Shells(shells));
    }
    Ok((tris, half))
}

// ---------------------------------------------------------------------------
// Ungrouped triangles
// ---------------------------------------------------------------------------

/// The groups of the three triangles across the sides of triangle `t`.
pub open spec fn nbr_groups(tris: Seq<[u32; 3]>, gid: Seq<i32>, t: int) -> (i32, i32, i32) {
    (gid[twin(tris, t, 0) as int], gid[twin(tris, t, 1) as int], gid[twin(tris, t, 2) as int])
}

/// How many of the three neighbours are in group `g`.
pub open spec fn votes(nb: (i32, i32, i32), g: i32) -> nat {
    (if nb.0 == g { 1nat } else { 0nat }) + (if nb.1 == g { 1nat } else { 0nat }) + (if nb.2 == g { 1nat } else { 0nat })
}

/// `g` is the group most of the grouped neighbours are in, the smallest
/// such group on a tie.
pub open spec fn best_vote(nb: (i32, i32, i32), g: i32) -> bool {
    &&& g >= 0
    &&& votes(nb, g) >= 1
    &&& forall|h: i32|
        h >= 0 && #[trigger] votes(nb, h) >= 1 ==> votes(nb, h) < votes(nb, g) || (votes(nb, h) == votes(nb, g) && g <= h)
}

pub open spec fn voted(nb: (i32, i32, i32)) -> Option<i32> {
    if exists|g: i32| best_vote(nb, g) {
        Some(choose|g: i32| best_vote(nb, g))
    } else {
        None
    }
}

/// Triangle `t` has no group but a grouped neighbour.
pub open spec fn joins(tris: Seq<[u32; 3]>, gid: Seq<i32>, t: int) -> bool {
    gid[t] < 0 && voted(nbr_groups(tris, gid, t)) is Some
}

/// One round: every ungrouped triangle with a grouped neighbour takes the
/// group its neighbours vote for (all at once).
pub open spec fn absorb_round(tris: Seq<[u32; 3]>, gid: Seq<i32>) -> Seq<i32> {
    Seq::new(gid.len(), |t: int| if joins(tris, gid, t) { voted(nbr_groups(tris, gid, t))->0 } else { gid[t] })
}

/// How many of the first `k` triangles join a group in this round.
pub open spec fn joining(tris: Seq<[u32; 3]>, gid: Seq<i32>, k: int) -> nat
    decreases k,
{
    if k <= 0 {
        0
    } else {
        joining(tris, gid, k - 1) + if joins(tris, gid, k - 1) { 1nat } else { 0nat }
    }
}

/// How many of the first `k` triangles have no group.
pub open spec fn ungrouped(gid: Seq<i32>, k: int) -> nat
    decreases k,
{
    if k <= 0 {
        0
    } else {
        ungrouped(gid, k - 1) + if gid[k - 1] < 0 { 1nat } else { 0nat }
    }
}

/// Rounds until no triangle joins (at most `fuel`): the groups, and how
/// many triangles joined.
pub open spec fn absorb_all(tris: Seq<[u32; 3]>, gid: Seq<i32>, fuel: nat) -> (Seq<i32>, nat)
    decreases fuel,
{
    if fuel == 0 || joining(tris, gid, gid.len() as int) == 0 {
        (gid, 0)
    } else {
        let (g, a) = absorb_all(tris, absorb_round(tris, gid), (fuel - 1) as nat);
        (g, a + joining(tris, gid, gid.len() as int))
    }
}

proof fn lemma_best_vote_unique(nb: (i32, i32, i32), g: i32, h: i32)
    requires
        best_vote(nb, g),
        best_vote(nb, h),
    ensures
        g == h,
{
    assert(votes(nb, h) >= 1);
    assert(votes(nb, g) >= 1);
}

proof fn lemma_round_counts(tris: Seq<[u32; 3]>, gid: Seq<i32>, k: int)
    requires
        0 <= k <= gid.len(),
    ensures
        ungrouped(absorb_round(tris, gid), k) + joining(tris, gid, k) == ungrouped(gid, k),
        ungrouped(gid, k) <= k,
    decreases k,
{
    if k > 0 {
        lemma_round_counts(tris, gid, k - 1);
        let t = k - 1;
        if joins(tris, gid, t) {
            let g = choose|g: i32| best_vote(nbr_groups(tris, gid, t), g);
            assert(absorb_round(tris, gid)[t] == g);
        }
    }
}

/// The group the three neighbours vote for.
fn vote(nb: [i32; 3]) -> (r: Option<i32>)
    ensures
        r == voted((nb[0], nb[1], nb[2])),
{
    let ghost n3 = (nb[0], nb[1], nb[2]);
    let mut best: Option<(i32, usize)> = None;
    let mut k: usize = 0;
    while k < 3
        invariant
            k <= 3,
            n3 == (nb[0], nb[1], nb[2]),
            match best {
                Some((g, c)) => {
                    &&& g >= 0
                    &&& c == votes(n3, g)
                    &&& c >= 1
                    &&& forall|j: int| 0 <= j < k && #[trigger] nb[j] >= 0 ==> votes(n3, nb[j]) < c || (votes(n3, nb[j]) == c && g <= nb[j])
                },
                None => forall|j: int| 0 <= j < k ==> #[trigger] nb[j] < 0,
            },
        decreases 3 - k,
    {
        let g = nb[k];
        if g >= 0 {
            let c = (if nb[0] == g { 1usize } else { 0 }) + (if nb[1] == g { 1usize } else { 0 }) + (if nb[2] == g { 1usize } else { 0 });
            assert(c == votes(n3, g));
            let better = match best {
                None => true,
                Some((bg, bc)) => c > bc || (c == bc && g < bg),
            };
            if better {
                best = Some((g, c));
            }
        }
        k += 1;
    }
    match best {
        None => {
            proof {
                if exists|g: i32| best_vote(n3, g) {
                    let g = choose|g: i32| best_vote(n3, g);
                    assert(votes(n3, g) >= 1);
                    assert(nb[0] == g || nb[1] == g || nb[2] == g);
                }
            }
            None
        },
        Some((g, c)) => {
            proof {
                assert forall|h: i32| h >= 0 && #[trigger] votes(n3, h) >= 1 implies votes(n3, h) < votes(n3, g) || (votes(n3, h)
                    == votes(n3, g) && g <= h) by {
                    if nb[0] == h {
                        assert(nb[0int] >= 0);
                    } else if nb[1] == h {
                        assert(nb[1int] >= 0);
                    } else {
                        assert(nb[2int] == h);
                    }
                }
                assert(best_vote(n3, g));
                let c2 = choose|g2: i32| best_vote(n3, g2);
                lemma_best_vote_unique(n3, g, c2);
            }
            Some(g)
        },
    }
}

/// The vote goes to a group that at least as many of the three neighbours
/// hold as any other group, and to the smallest such group on a tie.
pub proof fn lemma_vote_most_held(nb: (i32, i32, i32), g: i32, h: i32)
    requires
        voted(nb) == Some(g),
        h >= 0,
    ensures
        g >= 0,
        votes(nb, g) >= 1,
        votes(nb, h) <= votes(nb, g),
        votes(nb, h) == votes(nb, g) ==> g <= h,
{
    assert(best_vote(nb, g));
    if votes(nb, h) >= 1 {
        assert(votes(nb, h) < votes(nb, g) || (votes(nb, h) == votes(nb, g) && g <= h));
    }
}

/// In a round, an ungrouped triangle that takes a group takes one that at
/// least as many of its neighbours (across its three sides) hold as any
/// other group, the smallest such group on a tie; a grouped triangle keeps
/// its group.
pub proof fn lemma_absorb_takes_most_held(tris: Seq<[u32; 3]>, gid: Seq<i32>, t: int, h: i32)
    requires
        0 <= t < gid.len(),
        h >= 0,
    ensures
        gid[t] >= 0 ==> absorb_round(tris, gid)[t] == gid[t],
        gid[t] < 0 && absorb_round(tris, gid)[t] >= 0 ==> ({
            let nb = nbr_groups(tris, gid, t);
            let g = absorb_round(tris, gid)[t];
            &&& votes(nb, g) >= 1
            &&& votes(nb, h) <= votes(nb, g)
            &&& votes(nb, h) == votes(nb, g) ==> g <= h
        }),
{
    if gid[t] < 0 && absorb_round(tris, gid)[t] >= 0 {
        let nb = nbr_groups(tris, gid, t);
        assert(joins(tris, gid, t));
        let g = voted(nb)->0;
        assert(absorb_round(tris, gid)[t] == g);
        lemma_vote_most_held(nb, g, h);
    }
}

proof fn lemma_absorb_fuel(tris: Seq<[u32; 3]>, gid: Seq<i32>, f: nat)
    requires
        f >= 1,
        joining(tris, gid, gid.len() as int) == 0,
    ensures
        absorb_all(tris, gid, f) == (gid, 0nat),
{
}

/// Ungrouped triangles join the group most of their grouped neighbours
/// are in (the smallest such group on a tie), in rounds, until none joins.
/// Returns the groups and how many triangles joined.
fn absorb_ungrouped(tris: &Vec<[u32; 3]>, adj: &Vec<Vec<u32>>, group_ids: &[i32]) -> (r: (Vec<i32>, usize))
    requires
        closed_manifold(tris@),
        tris@.len() <= u32::MAX,
        lists(adj@) == twin_graph(tris@),
        group_ids@.len() == tris@.len(),
    ensures
        (r.0@, r.1 as nat) == absorb_all(tris@, group_ids@, (tris@.len() + 1) as nat),
{
    let ghost ts = tris@;
    let n = tris.len();
    let ghost g0 = group_ids@;
    let ghost full = (n + 1) as nat;
    let mut gid: Vec<i32> = Vec::new();
    let mut t: usize = 0;
    while t < n
        invariant
            t <= n,
            n == g0.len(),
            g0 == group_ids@,
            gid@ == g0.take(t as int),
        decreases n - t,
    {
        gid.push(group_ids[t]);
        t += 1;
        assert(gid@ =~= g0.take(t as int));
    }
    assert(g0.take(n as int) =~= g0);
    proof {
        assert forall|u: int, e: int| 0 <= u < n && 0 <= e < 3 implies (#[trigger] twin(ts, u, e) as int) < n by {
            lemma_twin(ts, u, e);
        }
        lemma_round_counts(ts, gid@, n as int);
    }
    let mut absorbed: usize = 0;
    let ghost mut fuel: nat = full;
    loop
        invariant
            ts == tris@,
            n == ts.len(),
            n <= u32::MAX,
            closed_manifold(ts),
            lists(adj@) == twin_graph(ts),
            forall|u: int, e: int| 0 <= u < n && 0 <= e < 3 ==> (#[trigger] twin(ts, u, e) as int) < n,
            gid@.len() == n,
            fuel > ungrouped(gid@, n as int),
            absorbed + ungrouped(gid@, n as int) == ungrouped(g0, n as int),
            ungrouped(g0, n as int) <= n,
            absorb_all(ts, g0, full) == (absorb_all(ts, gid@, fuel).0, (absorbed + absorb_all(ts, gid@, fuel).1) as nat),
        ensures
            joining(ts, gid@, n as int) == 0,
            gid@.len() == n,
            fuel >= 1,
            absorb_all(ts, g0, full) == (absorb_all(ts, gid@, fuel).0, (absorbed + absorb_all(ts, gid@, fuel).1) as nat),
        decreases ungrouped(gid@, n as int),
    {
        let ghost cur = gid@;
        let mut next: Vec<i32> = Vec::new();
        let mut moved: usize = 0;
        let mut t: usize = 0;
        while t < n
            invariant
                ts == tris@,
                n == ts.len(),
                lists(adj@) == twin_graph(ts),
                forall|u: int, e: int| 0 <= u < n && 0 <= e < 3 ==> (#[trigger] twin(ts, u, e) as int) < n,
                gid@ == cur,
                cur.len() == n,
                t <= n,
                next@ == absorb_round(ts, cur).take(t as int),
                moved == joining(ts, cur, t as int),
                moved <= t,
            decreases n - t,
        {
            assert(lists(adj@).len() == adj@.len());
            assert(adj@[t as int]@ == lists(adj@)[t as int]);
            assert(adj@[t as int]@ == twin_graph(ts)[t as int]);
            let a0 = adj[t][0];
            let a1 = adj[t][1];
            let a2 = adj[t][2];
            assert(a0 == twin(ts, t as int, 0) && a1 == twin(ts, t as int, 1) && a2 == twin(ts, t as int, 2));
            let nb = [gid[a0 as usize], gid[a1 as usize], gid[a2 as usize]];
            assert((nb[0], nb[1], nb[2]) == nbr_groups(ts, cur, t as int));
            let g = gid[t];
            if g < 0 {
                match vote(nb) {
                    Some(v) => {
                        next.push(v);
                        moved += 1;
                    },
                    None => {
                        next.push(g);
                    },
                }
            } else {
                next.push(g);
            }
            t += 1;
            assert(next@ =~= absorb_round(ts, cur).take(t as int));
        }
        assert(absorb_round(ts, cur).take(n as int) =~= absorb_round(ts, cur));
        if moved == 0 {
            break;
        }
        proof {
            lemma_round_counts(ts, cur, n as int);
            assert(absorb_all(ts, cur, fuel) == (absorb_all(ts, absorb_round(ts, cur), (fuel - 1) as nat).0, (absorb_all(
                ts,
                absorb_round(ts, cur),
                (fuel - 1) as nat,
            ).1 + moved) as nat));
            fuel = (fuel - 1) as nat;
        }
        absorbed += moved;
        gid = next;
    }
    proof {
        lemma_absorb_fuel(ts, gid@, fuel);
    }
    (gid, absorbed)
}

// ---------------------------------------------------------------------------
// Faces: connected regions of one group
// ---------------------------------------------------------------------------

/// Triangles ordered by group, then by number.
pub open spec fn group_leq(gid: Seq<i32>) -> spec_fn(usize, usize) -> bool {
    |a: usize, b: usize| gid[a as int] < gid[b as int] || (gid[a as int] == gid[b as int] && a <= b)
}

/// All triangles, by group, then by number.
pub open spec fn face_order(gid: Seq<i32>) -> Seq<usize> {
    Seq::new(gid.len(), |t: int| t as usize).sort_by(group_leq(gid))
}

proof fn lemma_group_leq_total(gid: Seq<i32>)
    ensures
        total_ordering(group_leq(gid)),
{
    let r = group_leq(gid);
    assert forall|x: usize| #[trigger] r(x, x) by {}
    assert forall|x: usize, y: usize| #[trigger] r(x, y) && #[trigger] r(y, x) implies x == y by {}
    assert forall|x: usize, y: usize, z: usize| #[trigger] r(x, y) && #[trigger] r(y, z) implies r(x, z) by {}
    assert forall|x: usize, y: usize| #[trigger] r(x, y) || #[trigger] r(y, x) by {}
}

/// The sort key of a triangle: group, then number.
pub open spec fn order_key(gid: Seq<i32>, t: usize) -> u64 {
    ((gid[t as int] as int + 0x8000_0000) * 0x1_0000_0000 + t as int) as u64
}

proof fn lemma_order_key(gid: Seq<i32>, a: usize, b: usize)
    requires
        a <= u32::MAX,
        b <= u32::MAX,
    ensures
        order_key(gid, a) as int == (gid[a as int] as int + 0x8000_0000) * 0x1_0000_0000 + a as int,
        (order_key(gid, a) <= order_key(gid, b)) == (group_leq(gid))(a, b),
        order_key(gid, a) == order_key(gid, b) ==> a == b,
{
    let ga = gid[a as int] as int + 0x8000_0000;
    let gb = gid[b as int] as int + 0x8000_0000;
    assert(0 <= ga < 0x1_0000_0000 && 0 <= gb < 0x1_0000_0000);
    assert(ga * 0x1_0000_0000 + a as int <= u64::MAX) by (nonlinear_arith)
        requires
            0 <= ga < 0x1_0000_0000,
            0 <= a <= u32::MAX,
    ;
    assert(gb * 0x1_0000_0000 + b as int <= u64::MAX) by (nonlinear_arith)
        requires
            0 <= gb < 0x1_0000_0000,
            0 <= b <= u32::MAX,
    ;
    assert((ga * 0x1_0000_0000 + a as int <= gb * 0x1_0000_0000 + b as int) == (ga < gb || (ga == gb && a <= b)))
        by (nonlinear_arith)
        requires
            0 <= a <= u32::MAX,
            0 <= b <= u32::MAX,
    ;
}

fn order_key_exec(g: i32, t: usize) -> (k: u64)
    requires
        t <= u32::MAX,
    ensures
        k as int == (g as int + 0x8000_0000) * 0x1_0000_0000 + t as int,
{
    let gg = (g as i64 + 0x8000_0000) as u64;
    assert(gg * 0x1_0000_0000 + t <= u64::MAX) by (nonlinear_arith)
        requires
            gg < 0x1_0000_0000,
            t <= u32::MAX,
    ;
    gg * 0x1_0000_0000 + t as u64
}

/// The triangles by group, then by number.
fn group_order(gid: &Vec<i32>) -> (order: Vec<usize>)
    requires
        gid@.len() <= u32::MAX,
    ensures
        order@ == face_order(gid@),
{
    let ghost g = gid@;
    let n = gid.len();
    let mut recs: Vec<(u64, usize)> = Vec::new();
    let mut t: usize = 0;
    while t < n
        invariant
            g == gid@,
            n == g.len(),
            n <= u32::MAX,
            t <= n,
            recs@ == Seq::new(t as nat, |u: int| (order_key(g, u as usize), u as usize)),
        decreases n - t,
    {
        let k = order_key_exec(gid[t], t);
        proof {
            lemma_order_key(g, t, t);
        }
        recs.push((k, t));
        t += 1;
        assert(recs@ =~= Seq::new(t as nat, |u: int| (order_key(g, u as usize), u as usize)));
    }
    let ghost init = recs@;
    par_sort_by_key(&mut recs);
    let ghost sr = recs@;
    proof {
        broadcast use {vstd::seq_lib::group_to_multiset_ensures, vstd::multiset::group_multiset_axioms};

        assert(sr.len() == n) by {
            assert(sr.to_multiset().len() == init.to_multiset().len());
        }
        assert forall|i: int| 0 <= i < n implies (#[trigger] sr[i]).0 == order_key(g, sr[i].1) && sr[i].1 < n by {
            assert(sr.to_multiset().contains(sr[i]));
            assert(init.contains(sr[i]));
            let j = choose|j: int| 0 <= j < init.len() && init[j] == sr[i];
        }
    }
    let mut order: Vec<usize> = Vec::new();
    let mut i: usize = 0;
    while i < n
        invariant
            sr == recs@,
            n == sr.len(),
            i <= n,
            order@ == Seq::new(i as nat, |q: int| sr[q].1),
        decreases n - i,
    {
        order.push(recs[i].1);
        i += 1;
        assert(order@ =~= Seq::new(i as nat, |q: int| sr[q].1));
    }
    proof {
        broadcast use {vstd::seq_lib::group_to_multiset_ensures, vstd::multiset::group_multiset_axioms};

        let o = order@;
        let leq = group_leq(g);
        lemma_group_leq_total(g);
        // Ascending keys, no two the same.
        assert forall|p: int, q: int| #![trigger o[p], o[q]] 0 <= p < q < n implies leq(o[p], o[q]) && o[p] != o[q] by {
            assert(sr[p].0 <= sr[q].0);
            lemma_order_key(g, o[p], o[q]);
            if o[p] == o[q] {
                // Two records of one triangle: the initial records are distinct.
                assert(sr[p] == sr[q]);
                assert(sr.to_multiset().count(sr[p]) >= 2) by {
                    crate::geom::repair::lemma_two_positions(sr, sr[p]);
                }
                assert(init.to_multiset().count(sr[p]) >= 2);
                crate::geom::repair::lemma_two_positions(init, sr[p]);
                let (x, y) = choose|x: int, y: int| 0 <= x < init.len() && 0 <= y < init.len() && x != y && init[x] == sr[p]
                    && init[y] == sr[p];
                assert(init[x].1 == x as usize && init[y].1 == y as usize);
            }
        }
        assert(sorted_by(o, leq)) by {
            assert forall|p: int, q: int| 0 <= p < q < o.len() implies #[trigger] leq(o[p], o[q]) by {
                assert(o[p] == o[p] && o[q] == o[q]);
            }
        }
        let all = Seq::new(n as nat, |u: int| u as usize);
        all.lemma_sort_by_ensures(leq);
        assert(o.no_duplicates()) by {
            assert forall|p: int, q: int| 0 <= p < o.len() && 0 <= q < o.len() && p != q implies o[p] != o[q] by {
                if p < q {
                    assert(leq(o[p], o[q]) && o[p] != o[q]);
                } else {
                    assert(leq(o[q], o[p]) && o[q] != o[p]);
                }
            }
        }
        assert(all.no_duplicates());
        o.lemma_multiset_has_no_duplicates();
        all.lemma_multiset_has_no_duplicates();
        assert forall|v: usize| o.to_multiset().count(v) == all.to_multiset().count(v) by {
            if v < n {
                assert(all[v as int] == v);
                assert(all.to_multiset().contains(v));
                // Some record is of triangle `v`.
                assert(init[v as int] == (order_key(g, v), v));
                assert(init.to_multiset().contains(init[v as int]));
                assert(sr.to_multiset().contains(init[v as int]));
                let q = choose|q: int| 0 <= q < sr.len() && sr[q] == init[v as int];
                assert(o[q] == v);
                assert(o.to_multiset().contains(v));
            } else {
                if o.to_multiset().contains(v) {
                    let q = choose|q: int| 0 <= q < o.len() && o[q] == v;
                }
                if all.to_multiset().contains(v) {
                    let q = choose|q: int| 0 <= q < all.len() && all[q] == v;
                }
            }
        }
        assert(o.to_multiset() =~= all.to_multiset());
        vstd::seq_lib::lemma_sorted_unique(o, all.sort_by(leq), leq);
    }
    order
}

/// The walk over one face: the face of each triangle (`usize::MAX` for
/// none yet), the face's triangles in the order taken, and the stack.
pub type FaceWalk = (Seq<usize>, Seq<u32>, Seq<usize>);

/// Neighbour `nb` joins face `f` when it has none yet and is of group `g`.
pub open spec fn walk_push(gid: Seq<i32>, f: usize, g: i32, st: FaceWalk, nb: u32) -> FaceWalk {
    if st.0[nb as int] == usize::MAX && gid[nb as int] == g {
        (st.0.update(nb as int, f), st.1, st.2.push(nb as usize))
    } else {
        st
    }
}

/// The top of the stack is taken, then its three neighbours are tried.
pub open spec fn walk_step(tw: Seq<Seq<u32>>, gid: Seq<i32>, f: usize, g: i32, st: FaceWalk) -> FaceWalk {
    let t = st.2.last() as int;
    let st1 = (st.0, st.1.push(t as u32), st.2.drop_last());
    walk_push(gid, f, g, walk_push(gid, f, g, walk_push(gid, f, g, st1, tw[t][0]), tw[t][1]), tw[t][2])
}

pub open spec fn face_walk(tw: Seq<Seq<u32>>, gid: Seq<i32>, f: usize, g: i32, st: FaceWalk, fuel: nat) -> FaceWalk
    decreases fuel,
{
    if fuel == 0 || st.2.len() == 0 {
        st
    } else {
        face_walk(tw, gid, f, g, walk_step(tw, gid, f, g, st), (fuel - 1) as nat)
    }
}

/// How many of the first `k` triangles have no face yet.
pub open spec fn unlabeled(fo: Seq<usize>, k: int) -> nat
    decreases k,
{
    if k <= 0 {
        0
    } else {
        unlabeled(fo, k - 1) + if fo[k - 1] == usize::MAX { 1nat } else { 0nat }
    }
}

/// The faces found from the first `k` triangles of `order`: the face of
/// each triangle, and each face's group and triangles.
pub open spec fn faces_upto(tw: Seq<Seq<u32>>, gid: Seq<i32>, order: Seq<usize>, k: int) -> (Seq<usize>, Seq<(i32, Seq<u32>)>)
    decreases k,
{
    if k <= 0 {
        (Seq::new(gid.len(), |t: int| usize::MAX), Seq::empty())
    } else {
        let (fo, fs) = faces_upto(tw, gid, order, k - 1);
        let s = order[k - 1] as int;
        if fo[s] != usize::MAX {
            (fo, fs)
        } else {
            let f = fs.len() as usize;
            let w = face_walk(tw, gid, f, gid[s], (fo.update(s, f), Seq::empty(), seq![s as usize]), (2 * gid.len() + 2) as nat);
            (w.0, fs.push((gid[s], w.1)))
        }
    }
}

proof fn lemma_unlabeled_update(fo: Seq<usize>, k: int, x: int, v: usize)
    requires
        0 <= x < k <= fo.len(),
        fo[x] == usize::MAX,
        v != usize::MAX,
    ensures
        unlabeled(fo.update(x, v), k) + 1 == unlabeled(fo, k),
    decreases k,
{
    if k - 1 > x {
        lemma_unlabeled_update(fo, k - 1, x, v);
    } else {
        assert forall|j: int| 0 <= j < k - 1 implies fo.update(x, v)[j] == fo[j] by {}
        lemma_unlabeled_same(fo.update(x, v), fo, k - 1);
    }
}

proof fn lemma_unlabeled_same(a: Seq<usize>, b: Seq<usize>, k: int)
    requires
        0 <= k <= a.len(),
        k <= b.len(),
        forall|j: int| 0 <= j < k ==> a[j] == b[j],
    ensures
        unlabeled(a, k) == unlabeled(b, k),
    decreases k,
{
    if k > 0 {
        lemma_unlabeled_same(a, b, k - 1);
    }
}

proof fn lemma_unlabeled_bound(fo: Seq<usize>, k: int)
    requires
        0 <= k,
    ensures
        unlabeled(fo, k) <= k,
    decreases k,
{
    if k > 0 {
        lemma_unlabeled_bound(fo, k - 1);
    }
}

proof fn lemma_face_walk_done(tw: Seq<Seq<u32>>, gid: Seq<i32>, f: usize, g: i32, st: FaceWalk, fuel: nat)
    requires
        st.2.len() == 0,
    ensures
        face_walk(tw, gid, f, g, st, fuel) == st,
{
}

/// Triangle `s` starts face `f`; the face grows across sides to
/// neighbours of its group that have no face yet (last found, first taken).
fn walk_face(
    tw: &Vec<Vec<u32>>,
    gid: &Vec<i32>,
    face_of: &mut Vec<usize>,
    s: usize,
    f: usize,
) -> (tris: Vec<u32>)
    requires
        lists(tw@).len() == gid@.len(),
        old(face_of)@.len() == gid@.len(),
        gid@.len() <= u32::MAX,
        forall|u: int| 0 <= u < tw@.len() ==> #[trigger] tw@[u]@.len() == 3,
        forall|u: int, e: int| 0 <= u < tw@.len() && 0 <= e < 3 ==> (#[trigger] tw@[u]@[e] as int) < gid@.len(),
        s < gid@.len(),
        old(face_of)@[s as int] == usize::MAX,
        f != usize::MAX,
        forall|t: int| 0 <= t < old(face_of)@.len() ==> #[trigger] old(face_of)@[t] != f,
    ensures
        forall|t: int| 0 <= t < gid@.len() && #[trigger] final(face_of)@[t] != old(face_of)@[t] ==> old(face_of)@[t] == usize::MAX
            && final(face_of)@[t] == f && gid@[t] == gid@[s as int],
        forall|t: int| 0 <= t < gid@.len() ==> (#[trigger] final(face_of)@[t] == f <==> tris@.contains(t as u32)),
        forall|q: int| 0 <= q < tris@.len() ==> (#[trigger] tris@[q] as int) < gid@.len(),
        forall|q: int, e: int| 0 <= q < tris@.len() && 0 <= e < 3 && gid@[lists(tw@)[tris@[q] as int][e] as int] == gid@[s as int]
            ==> #[trigger] final(face_of)@[lists(tw@)[#[trigger] tris@[q] as int][e] as int] != usize::MAX,
        linked(lists(tw@), tris@),
        (final(face_of)@, tris@, Seq::<usize>::empty()) == face_walk(
            lists(tw@),
            gid@,
            f,
            gid@[s as int],
            (old(face_of)@.update(s as int, f), Seq::empty(), seq![s]),
            (2 * gid@.len() + 2) as nat,
        ),
{
    let ghost g = gid@;
    let ghost twl = lists(tw@);
    let ghost n = g.len();
    let ghost full = (2 * n + 2) as nat;
    let ghost st0: FaceWalk = (old(face_of)@.update(s as int, f), Seq::empty(), seq![s]);
    let ghost fo0 = old(face_of)@;
    let grp = gid[s];
    face_of.set(s, f);
    let mut tris: Vec<u32> = Vec::new();
    let mut stack: Vec<usize> = Vec::new();
    stack.push(s);
    let ghost mut fuel: nat = full;
    proof {
        lemma_unlabeled_bound(face_of@, n as int);
        assert(stack@ =~= seq![s]);
        assert(tris@ =~= Seq::<u32>::empty());
        assert forall|t: int| 0 <= t < n && #[trigger] face_of@[t] == f implies tris@.contains(t as u32) || stack@.contains(t as usize) by {
            assert(t == s as int);
            assert(stack@[0] == s);
        }
    }
    while stack.len() > 0
        invariant
            g == gid@,
            twl == lists(tw@),
            n == g.len(),
            twl.len() == n,
            n <= u32::MAX,
            face_of@.len() == n,
            forall|u: int| 0 <= u < tw@.len() ==> #[trigger] tw@[u]@.len() == 3,
            forall|u: int, e: int| 0 <= u < tw@.len() && 0 <= e < 3 ==> (#[trigger] tw@[u]@[e] as int) < n,
            forall|q: int| 0 <= q < stack@.len() ==> (#[trigger] stack@[q] as int) < n,
            grp == g[s as int],
            f != usize::MAX,
            fuel > 2 * unlabeled(face_of@, n as int) + stack@.len(),
            face_walk(twl, g, f, grp, st0, full) == face_walk(twl, g, f, grp, (face_of@, tris@, stack@), fuel),
            fo0.len() == n,
            forall|t: int| 0 <= t < n && #[trigger] face_of@[t] != fo0[t] ==> fo0[t] == usize::MAX && face_of@[t] == f && g[t] == grp,
            forall|t: int| 0 <= t < n && #[trigger] face_of@[t] == f ==> tris@.contains(t as u32) || stack@.contains(t as usize),
            forall|t: int| 0 <= t < n ==> #[trigger] fo0[t] != f,
            forall|q: int| 0 <= q < tris@.len() ==> (#[trigger] tris@[q] as int) < n && face_of@[tris@[q] as int] == f,
            forall|q: int| 0 <= q < stack@.len() ==> #[trigger] face_of@[stack@[q] as int] == f,
            forall|q: int, e: int| 0 <= q < tris@.len() && 0 <= e < 3 && g[twl[tris@[q] as int][e] as int] == grp
                ==> #[trigger] face_of@[twl[#[trigger] tris@[q] as int][e] as int] != usize::MAX,
            linked(twl, tris@),
            tris@.len() == 0 ==> stack@ == seq![s],
            forall|q: int| 0 <= q < stack@.len() && tris@.len() > 0 ==> has_source(twl, tris@, #[trigger] stack@[q]),
        decreases 2 * unlabeled(face_of@, n as int) + stack@.len(),
    {
        let ghost before: FaceWalk = (face_of@, tris@, stack@);
        let t = stack.pop().unwrap();
        assert(t == before.2.last());
        assert(face_of@[t as int] == f) by {
            assert(before.2[before.2.len() - 1] == t);
        }
        tris.push(t as u32);
        proof {
            assert forall|x: int| 0 <= x < n && #[trigger] face_of@[x] == f implies tris@.contains(x as u32) || stack@.contains(x as usize) by {
                if before.1.contains(x as u32) {
                    let q = choose|q: int| 0 <= q < before.1.len() && before.1[q] == x as u32;
                    assert(tris@[q] == x as u32);
                } else if x == t as int {
                    assert(tris@[before.1.len() as int] == x as u32);
                } else {
                    assert(before.2.contains(x as usize));
                    let q = choose|q: int| 0 <= q < before.2.len() && before.2[q] == x as usize;
                    assert(q != before.2.len() - 1);
                    assert(stack@[q] == x as usize);
                }
            }
            let m = before.1.len() as int;
            assert(tris@ == before.1.push(t as u32));
            assert forall|i: int| 0 < i < tris@.len() implies #[trigger] has_parent(twl, tris@, i) by {
                if i < m {
                    assert(has_parent(twl, before.1, i));
                    let (j, e) = choose|j: int, e: int| 0 <= j < i && 0 <= e < 3 && twl[before.1[j] as int][e] == before.1[i];
                    assert(tris@[j] == before.1[j] && tris@[i] == before.1[i]);
                } else {
                    let q = before.2.len() - 1;
                    assert(before.2[q] == t);
                    assert(m > 0);
                    let (j, e) = choose|j: int, e: int| 0 <= j < before.1.len() && 0 <= e < 3
                        && twl[before.1[j] as int][e] == before.2[q] as u32;
                    assert(tris@[j] == before.1[j]);
                    assert(tris@[i] == t as u32);
                }
            }
            assert forall|q: int| 0 <= q < stack@.len() && tris@.len() > 0 implies has_source(twl, tris@, #[trigger] stack@[q]) by {
                assert(stack@[q] == before.2[q]);
                if m == 0 {
                    assert(before.2 == seq![s]);
                    assert(false);
                }
                let (j, e) = choose|j: int, e: int| 0 <= j < before.1.len() && 0 <= e < 3
                    && twl[before.1[j] as int][e] == before.2[q] as u32;
                assert(tris@[j] == before.1[j]);
            }
        }
        assert(tw@[t as int]@ == twl[t as int]);
        let mut e: usize = 0;
        let ghost mut cur: FaceWalk = (before.0, before.1.push(t as u32), before.2.drop_last());
        assert(stack@ =~= before.2.drop_last());
        while e < 3
            invariant
                g == gid@,
                twl == lists(tw@),
                n == g.len(),
                twl.len() == n,
                face_of@.len() == n,
                forall|u: int| 0 <= u < tw@.len() ==> #[trigger] tw@[u]@.len() == 3,
                forall|u: int, ee: int| 0 <= u < tw@.len() && 0 <= ee < 3 ==> (#[trigger] tw@[u]@[ee] as int) < n,
                forall|q: int| 0 <= q < stack@.len() ==> (#[trigger] stack@[q] as int) < n,
                (t as int) < n,
                tw@[t as int]@ == twl[t as int],
                grp == g[s as int],
                f != usize::MAX,
                e <= 3,
                cur == (face_of@, tris@, stack@),
                2 * unlabeled(face_of@, n as int) + stack@.len() <= 2 * unlabeled(before.0, n as int) + before.2.len() - 1,
                before.2.len() > 0,
                t == before.2.last(),
                e == 0 ==> cur == (before.0, before.1.push(t as u32), before.2.drop_last()),
                e == 1 ==> cur == walk_push(g, f, grp, (before.0, before.1.push(t as u32), before.2.drop_last()), twl[t as int][0]),
                e == 2 ==> cur == walk_push(g, f, grp, walk_push(g, f, grp, (before.0, before.1.push(t as u32), before.2.drop_last()), twl[t as int][0]), twl[t as int][1]),
                e == 3 ==> cur == walk_step(twl, g, f, grp, before),
                fo0.len() == n,
                forall|x: int| 0 <= x < n && #[trigger] face_of@[x] != fo0[x] ==> fo0[x] == usize::MAX && face_of@[x] == f && g[x] == grp,
                forall|x: int| 0 <= x < n && #[trigger] face_of@[x] == f ==> tris@.contains(x as u32) || stack@.contains(x as usize),
                forall|x: int| 0 <= x < n ==> #[trigger] fo0[x] != f,
                tris@ == before.1.push(t as u32),
                n <= u32::MAX,
                linked(twl, tris@),
                forall|q: int| 0 <= q < stack@.len() ==> has_source(twl, tris@, #[trigger] stack@[q]),
                forall|q: int| 0 <= q < tris@.len() ==> (#[trigger] tris@[q] as int) < n && face_of@[tris@[q] as int] == f,
                forall|q: int| 0 <= q < stack@.len() ==> #[trigger] face_of@[stack@[q] as int] == f,
                forall|q: int, ee: int| 0 <= q < tris@.len() && 0 <= ee < 3 && (q < tris@.len() - 1 || ee < e) && g[twl[tris@[q] as int][ee] as int] == grp
                    ==> #[trigger] face_of@[twl[#[trigger] tris@[q] as int][ee] as int] != usize::MAX,
            decreases 3 - e,
        {
            let nb = tw[t][e];
            proof {
                lemma_unlabeled_bound(face_of@, n as int);
            }
            let ghost fb = face_of@;
            let ghost sb = stack@;
            if face_of[nb as usize] == usize::MAX && gid[nb as usize] == grp {
                proof {
                    lemma_unlabeled_update(face_of@, n as int, nb as int, f);
                }
                face_of.set(nb as usize, f);
                stack.push(nb as usize);
                proof {
                    assert forall|q: int| 0 <= q < stack@.len() implies has_source(twl, tris@, #[trigger] stack@[q]) by {
                        if q < sb.len() {
                            assert(stack@[q] == sb[q]);
                            assert(sb[q] as u32 == stack@[q] as u32);
                        } else {
                            let j = tris@.len() - 1;
                            assert(tris@[j] == t as u32);
                            assert(twl[t as int][e as int] == nb);
                            assert(stack@[q] == nb as usize);
                            assert((nb as usize) as u32 == nb);
                            assert(twl[tris@[j] as int][e as int] == stack@[q] as u32);
                        }
                    }
                    assert forall|x: int| 0 <= x < n && #[trigger] face_of@[x] == f implies tris@.contains(x as u32) || stack@.contains(x as usize) by {
                        if x == nb as int {
                            assert(stack@[sb.len() as int] == x as usize);
                        } else {
                            assert(fb[x] == f);
                            if sb.contains(x as usize) {
                                let q = choose|q: int| 0 <= q < sb.len() && sb[q] == x as usize;
                                assert(stack@[q] == x as usize);
                            }
                        }
                    }
                    assert forall|q: int| 0 <= q < stack@.len() implies #[trigger] face_of@[stack@[q] as int] == f by {
                        if q < sb.len() {
                            assert(stack@[q] == sb[q]);
                        }
                    }
                }
            }
            proof {
                assert(tw@[t as int]@[e as int] == twl[t as int][e as int]);
                assert(g[twl[t as int][e as int] as int] == grp ==> face_of@[twl[t as int][e as int] as int] != usize::MAX);
                assert(forall|x: int| 0 <= x < n ==> face_of@[x] == fb[x] || face_of@[x] == f);
                assert forall|q: int, ee: int| 0 <= q < tris@.len() && 0 <= ee < 3 && (q < tris@.len() - 1 || ee < e + 1)
                    && g[twl[tris@[q] as int][ee] as int] == grp
                    implies (#[trigger] face_of@[twl[#[trigger] tris@[q] as int][ee] as int] != usize::MAX) by {
                    let u = twl[tris@[q] as int][ee];
                    assert(twl[tris@[q] as int] == tw@[tris@[q] as int]@);
                    assert((u as int) < n);
                    if q == tris@.len() - 1 && ee == e {
                        assert(tris@[q] == t as u32);
                        assert(u == twl[t as int][e as int]);
                        assert(face_of@[u as int] != usize::MAX);
                    } else {
                        assert(fb[u as int] != usize::MAX);
                        assert(face_of@[u as int] == fb[u as int] || face_of@[u as int] == f);
                        assert(face_of@[u as int] != usize::MAX);
                    }
                }
            }
            proof {
                assert forall|q: int| 0 <= q < stack@.len() implies has_source(twl, tris@, #[trigger] stack@[q]) by {
                    if q < sb.len() {
                        assert(stack@[q] == sb[q]);
                        assert(sb[q] as u32 == stack@[q] as u32);
                    }
                }
                cur = walk_push(g, f, grp, cur, nb);
                assert(cur.0 =~= face_of@);
                assert(cur.2 =~= stack@);
            }
            e += 1;
        }
        proof {
            assert(before.2.len() > 0);
            assert forall|q: int, ee: int| 0 <= q < tris@.len() && 0 <= ee < 3 && g[twl[tris@[q] as int][ee] as int] == grp
                implies (#[trigger] face_of@[twl[#[trigger] tris@[q] as int][ee] as int] != usize::MAX) by {
            }
            assert(face_walk(twl, g, f, grp, before, fuel) == face_walk(twl, g, f, grp, walk_step(twl, g, f, grp, before), (fuel - 1) as nat));
            fuel = (fuel - 1) as nat;
        }
    }
    proof {
        lemma_face_walk_done(twl, g, f, grp, (face_of@, tris@, stack@), fuel);
        assert(stack@ =~= Seq::<usize>::empty());
        assert forall|t: int| 0 <= t < gid@.len() implies (#[trigger] face_of@[t] == f <==> tris@.contains(t as u32)) by {
            if tris@.contains(t as u32) {
                let q = choose|q: int| 0 <= q < tris@.len() && tris@[q] == t as u32;
            }
        }
    }
    tris
}

/// Every triangle has no face yet or one of the faces below `nf`.
pub open spec fn labels_below(fo: Seq<usize>, nf: int) -> bool {
    forall|t: int| 0 <= t < fo.len() ==> #[trigger] fo[t] == usize::MAX || (fo[t] as int) < nf
}

proof fn lemma_walk_keeps(tw: Seq<Seq<u32>>, gid: Seq<i32>, f: usize, g: i32, st: FaceWalk, fuel: nat)
    requires
        f != usize::MAX,
        st.0.len() == gid.len(),
        tw.len() == gid.len(),
        forall|u: int, e: int| 0 <= u < tw.len() && 0 <= e < 3 ==> (#[trigger] tw[u][e] as int) < gid.len(),
        forall|u: int| 0 <= u < tw.len() ==> #[trigger] tw[u].len() == 3,
        forall|q: int| 0 <= q < st.2.len() ==> (#[trigger] st.2[q] as int) < gid.len(),
        labels_below(st.0, f + 1),
    ensures
        face_walk(tw, gid, f, g, st, fuel).0.len() == gid.len(),
        labels_below(face_walk(tw, gid, f, g, st, fuel).0, f + 1),
        forall|t: int| 0 <= t < gid.len() && st.0[t] != usize::MAX ==> #[trigger] face_walk(tw, gid, f, g, st, fuel).0[t] == st.0[t],
    decreases fuel,
{
    if fuel > 0 && st.2.len() > 0 {
        let t = st.2.last() as int;
        let st1: FaceWalk = (st.0, st.1.push(t as u32), st.2.drop_last());
        let a = walk_push(gid, f, g, st1, tw[t][0]);
        let b = walk_push(gid, f, g, a, tw[t][1]);
        let c = walk_push(gid, f, g, b, tw[t][2]);
        assert(c == walk_step(tw, gid, f, g, st));
        assert(tw[t][0] < gid.len() && tw[t][1] < gid.len() && tw[t][2] < gid.len());
        assert(labels_below(c.0, f + 1));
        assert forall|q: int| 0 <= q < c.2.len() implies (#[trigger] c.2[q] as int) < gid.len() by {
            assert forall|q2: int| 0 <= q2 < a.2.len() implies (#[trigger] a.2[q2] as int) < gid.len() by {
                if q2 < st1.2.len() { assert(a.2[q2] == st1.2[q2]); }
            }
            assert forall|q2: int| 0 <= q2 < b.2.len() implies (#[trigger] b.2[q2] as int) < gid.len() by {
                if q2 < a.2.len() { assert(b.2[q2] == a.2[q2]); }
            }
            if q < b.2.len() { assert(c.2[q] == b.2[q]); }
        }
        lemma_walk_keeps(tw, gid, f, g, c, (fuel - 1) as nat);
    }
}

/// A face of the B-Rep: its group, its triangles, and its loops as
/// (edge, same sense as the edge) uses.
pub struct TopoFace {
    pub group: i32,
    pub tris: Vec<u32>,
    pub loops: Vec<Vec<(usize, bool)>>,
}

/// The triangles `ts` are linked in order: each after the first is a
/// neighbour (by `tw`) of an earlier one, so that all are joined to the
/// first through the list.
pub open spec fn linked(tw: Seq<Seq<u32>>, ts: Seq<u32>) -> bool {
    forall|i: int| 0 < i < ts.len() ==> #[trigger] has_parent(tw, ts, i)
}

/// Triangle `x` is a neighbour of one of the triangles `ts`.
pub open spec fn has_source(tw: Seq<Seq<u32>>, ts: Seq<u32>, x: usize) -> bool {
    exists|j: int, e: int| 0 <= j < ts.len() && 0 <= e < 3 && tw[ts[j] as int][e] == x as u32
}

/// Triangle `i` of the list is a neighbour of an earlier one.
pub open spec fn has_parent(tw: Seq<Seq<u32>>, ts: Seq<u32>, i: int) -> bool {
    exists|j: int, e: int| 0 <= j < i && 0 <= e < 3 && tw[ts[j] as int][e] == ts[i]
}

/// Triangle `t` is in one of the faces.
pub open spec fn in_some_face(parts: Seq<(i32, Seq<u32>)>, t: int) -> bool {
    exists|f: int| 0 <= f < parts.len() && #[trigger] parts[f].1.contains(t as u32)
}

/// The faces (each its group and triangles) split the triangles into the
/// connected regions of one group: every triangle is in exactly one face,
/// the triangles of a face have its group, each is joined to the first
/// through neighbours (across sides, by `tw`) listed before it, and a face
/// holds every neighbour of its triangles that has the same group.
pub open spec fn faces_split(tw: Seq<Seq<u32>>, gid: Seq<i32>, parts: Seq<(i32, Seq<u32>)>) -> bool {
    &&& forall|t: int| 0 <= t < gid.len() ==> #[trigger] in_some_face(parts, t)
    &&& forall|f1: int, f2: int, t: u32|
        0 <= f1 < parts.len() && 0 <= f2 < parts.len() && #[trigger] parts[f1].1.contains(t) && #[trigger] parts[f2].1.contains(t) ==> f1 == f2
    &&& forall|f: int, t: u32| 0 <= f < parts.len() && #[trigger] parts[f].1.contains(t) ==> t < gid.len() && gid[t as int] == parts[f].0
    &&& forall|f: int, t: u32, e: int|
        0 <= f < parts.len() && #[trigger] parts[f].1.contains(t) && 0 <= e < 3 && gid[tw[t as int][e] as int] == gid[t as int]
            ==> parts[f].1.contains(#[trigger] tw[t as int][e])
    &&& forall|f: int| 0 <= f < parts.len() ==> #[trigger] linked(tw, parts[f].1)
}

/// The faces: connected regions of one group, found from the triangles
/// in group-then-number order. Returns the face of each triangle.
fn find_faces(tw: &Vec<Vec<u32>>, gid: &Vec<i32>) -> (r: (Vec<usize>, Vec<TopoFace>))
    requires
        lists(tw@).len() == gid@.len(),
        gid@.len() <= u32::MAX,
        forall|u: int| 0 <= u < tw@.len() ==> #[trigger] tw@[u]@.len() == 3,
        forall|u: int, e: int| 0 <= u < tw@.len() && 0 <= e < 3 ==> (#[trigger] tw@[u]@[e] as int) < gid@.len(),
        symmetric(lists(tw@)),
    ensures
        faces_split(lists(tw@), gid@, face_parts(r.1@)),
        r.0@ == faces_upto(lists(tw@), gid@, face_order(gid@), gid@.len() as int).0,
        r.1@.len() == faces_upto(lists(tw@), gid@, face_order(gid@), gid@.len() as int).1.len(),
        forall|f: int| 0 <= f < r.1@.len() ==> (#[trigger] r.1@[f]).group == faces_upto(lists(tw@), gid@, face_order(gid@), gid@.len() as int).1[f].0
            && r.1@[f].tris@ == faces_upto(lists(tw@), gid@, face_order(gid@), gid@.len() as int).1[f].1
            && r.1@[f].loops@.len() == 0,
        forall|t: int| 0 <= t < gid@.len() ==> (#[trigger] r.0@[t] as int) < r.1@.len(),
{
    let ghost g = gid@;
    let ghost twl = lists(tw@);
    let n = gid.len();
    let order = group_order(gid);
    let ghost ov = order@;
    proof {
        let all = Seq::new(n as nat, |u: int| u as usize);
        lemma_group_leq_total(g);
        all.lemma_sort_by_ensures(group_leq(g));
        assert(ov.len() == n) by {
            broadcast use vstd::seq_lib::group_to_multiset_ensures;
            assert(ov.to_multiset().len() == all.to_multiset().len());
        }
        assert forall|q: int| 0 <= q < ov.len() implies (#[trigger] ov[q] as int) < n by {
            broadcast use vstd::seq_lib::group_to_multiset_ensures;
            assert(ov.contains(ov[q]));
            assert(all.to_multiset().contains(ov[q]));
            let j = choose|j: int| 0 <= j < all.len() && all[j] == ov[q];
        }
        assert forall|t: usize| t < n implies #[trigger] ov.contains(t) by {
            assert(all[t as int] == t);
            assert(all.contains(t)) by {
                broadcast use vstd::seq_lib::group_to_multiset_ensures;
            }
            assert(ov.to_multiset().contains(t)) by {
                broadcast use vstd::seq_lib::group_to_multiset_ensures;
            }
            assert(ov.contains(t)) by {
                broadcast use vstd::seq_lib::group_to_multiset_ensures;
            }
        }
        assert forall|u: int| 0 <= u < tw@.len() implies #[trigger] twl[u].len() == 3 && forall|e: int| 0 <= e < 3 ==> (twl[u][e] as int) < n by {
            assert(twl[u] == tw@[u]@);
        }
    }
    let mut face_of: Vec<usize> = Vec::new();
    while face_of.len() < n
        invariant
            face_of@.len() <= n,
            forall|t: int| 0 <= t < face_of@.len() ==> #[trigger] face_of@[t] == usize::MAX,
        decreases n - face_of@.len(),
    {
        face_of.push(usize::MAX);
    }
    assert(face_of@ =~= faces_upto(twl, g, ov, 0).0);
    let mut faces: Vec<TopoFace> = Vec::new();
    let mut k: usize = 0;
    while k < n
        invariant
            g == gid@,
            twl == lists(tw@),
            n == g.len(),
            n <= u32::MAX,
            twl.len() == n,
            ov == order@,
            ov == face_order(g),
            ov.len() == n,
            forall|t: usize| t < n ==> #[trigger] ov.contains(t),
            forall|q: int| 0 <= q < ov.len() ==> (#[trigger] ov[q] as int) < n,
            forall|u: int| 0 <= u < tw@.len() ==> #[trigger] tw@[u]@.len() == 3,
            forall|u: int, e: int| 0 <= u < tw@.len() && 0 <= e < 3 ==> (#[trigger] tw@[u]@[e] as int) < n,
            forall|u: int, e: int| 0 <= u < twl.len() && 0 <= e < 3 ==> (#[trigger] twl[u][e] as int) < n,
            forall|u: int| 0 <= u < twl.len() ==> #[trigger] twl[u].len() == 3,
            k <= n,
            face_of@ == faces_upto(twl, g, ov, k as int).0,
            faces@.len() == faces_upto(twl, g, ov, k as int).1.len(),
            faces@.len() <= k,
            forall|f: int| 0 <= f < faces@.len() ==> (#[trigger] faces@[f]).group == faces_upto(twl, g, ov, k as int).1[f].0
                && faces@[f].tris@ == faces_upto(twl, g, ov, k as int).1[f].1 && faces@[f].loops@.len() == 0,
            face_of@.len() == n,
            labels_below(face_of@, faces@.len() as int),
            forall|q: int| 0 <= q < k ==> #[trigger] face_of@[ov[q] as int] != usize::MAX,
            symmetric(twl),
            forall|t: int, e: int| 0 <= t < n && 0 <= e < 3 && face_of@[t] != usize::MAX && g[twl[t][e] as int] == g[t]
                ==> #[trigger] face_of@[twl[t][e] as int] == face_of@[t],
            forall|t: int| 0 <= t < n && #[trigger] face_of@[t] != usize::MAX ==> g[t] == faces@[face_of@[t] as int].group,
            forall|f: int, t: int| 0 <= f < faces@.len() && 0 <= t < n ==> (#[trigger] faces@[f].tris@.contains(t as u32) <==> face_of@[t] == f),
            forall|f: int, q: int| 0 <= f < faces@.len() && 0 <= q < faces@[f].tris@.len() ==> (#[trigger] faces@[f].tris@[q] as int) < n,
            forall|f: int| 0 <= f < faces@.len() ==> #[trigger] linked(twl, faces@[f].tris@),
        decreases n - k,
    {
        let s = order[k];
        assert(ov.contains(s)) by { assert(ov[k as int] == s); }
        proof {
            let all = Seq::new(n as nat, |u: int| u as usize);
            all.lemma_sort_by_ensures(group_leq(g));
            assert(all.to_multiset().contains(s)) by {
                broadcast use vstd::seq_lib::group_to_multiset_ensures;
            }
            assert(all.contains(s)) by {
                broadcast use vstd::seq_lib::group_to_multiset_ensures;
            }
        }
        assert((s as int) < n);
        let ghost before = face_of@;
        if face_of[s] == usize::MAX {
            let f = faces.len();
            let grp = gid[s];
            proof {
                assert forall|t: int| 0 <= t < face_of@.len() implies #[trigger] face_of@[t] != f by {
                    assert(labels_below(face_of@, f as int));
                }
            }
            let tris = walk_face(tw, gid, &mut face_of, s, f);
            proof {
                let st0: FaceWalk = (before.update(s as int, f), Seq::empty(), seq![s]);
                assert(labels_below(st0.0, f + 1));
                lemma_walk_keeps(twl, g, f, grp, st0, (2 * n + 2) as nat);
            }
            let ghost old_faces = faces@;
            faces.push(TopoFace { group: grp, tris, loops: Vec::new() });
            proof {
                assert forall|f2: int| 0 <= f2 < faces@.len() implies (#[trigger] faces@[f2]).group == faces_upto(twl, g, ov, k + 1).1[f2].0
                    && faces@[f2].tris@ == faces_upto(twl, g, ov, k + 1).1[f2].1 && faces@[f2].loops@.len() == 0 by {
                    if f2 < old_faces.len() {
                        assert(faces@[f2] == old_faces[f2]);
                    }
                }
                assert forall|q: int| 0 <= q < k + 1 implies #[trigger] face_of@[ov[q] as int] != usize::MAX by {
                    if q < k {
                        let st0: FaceWalk = (before.update(s as int, f), Seq::empty(), seq![s]);
                        let x = ov[q] as int;
                        assert(before[x] != usize::MAX);
                        assert(st0.0[x] != usize::MAX);
                        assert(face_of@ == face_walk(twl, g, f, grp, st0, (2 * n + 2) as nat).0);
                    } else {
                        assert(before.update(s as int, f)[s as int] == f);
                    }
                }
                // Faces keep one group and take every same-group neighbour.
                assert forall|t: int| 0 <= t < n && #[trigger] face_of@[t] != usize::MAX implies g[t] == faces@[face_of@[t] as int].group by {
                    if face_of@[t] == before[t] {
                        assert(faces@[before[t] as int] == old_faces[before[t] as int]);
                    }
                }
                assert forall|f2: int, t: int| 0 <= f2 < faces@.len() && 0 <= t < n
                    implies (#[trigger] faces@[f2].tris@.contains(t as u32) <==> face_of@[t] == f2) by {
                    if f2 < old_faces.len() {
                        assert(faces@[f2] == old_faces[f2]);
                        if face_of@[t] != before[t] {
                            assert(face_of@[t] == f);
                        }
                    }
                }
                assert forall|f2: int, q: int| 0 <= f2 < faces@.len() && 0 <= q < faces@[f2].tris@.len()
                    implies (#[trigger] faces@[f2].tris@[q] as int) < n by {
                    if f2 < old_faces.len() {
                        assert(faces@[f2] == old_faces[f2]);
                    }
                }
                assert forall|f2: int| 0 <= f2 < faces@.len() implies #[trigger] linked(twl, faces@[f2].tris@) by {
                    if f2 < old_faces.len() {
                        assert(faces@[f2] == old_faces[f2]);
                    }
                }
                assert forall|t: int, e: int| 0 <= t < n && 0 <= e < 3 && face_of@[t] != usize::MAX && g[twl[t][e] as int] == g[t]
                    implies #[trigger] face_of@[twl[t][e] as int] == face_of@[t] by {
                    let u = twl[t][e];
                    assert(u < n);
                    if face_of@[t] == before[t] {
                        assert(before[u as int] == before[t]);
                        if face_of@[u as int] != before[u as int] {
                            assert(before[u as int] == usize::MAX);
                        }
                    } else {
                        assert(face_of@[t] == f && g[t] == grp);
                        assert(tris@.contains(t as u32));
                        let q = choose|q: int| 0 <= q < tris@.len() && tris@[q] == t as u32;
                        assert(face_of@[twl[tris@[q] as int][e] as int] != usize::MAX);
                        if face_of@[u as int] != f {
                            assert(face_of@[u as int] == before[u as int]);
                            assert(twl[u as int].contains(t as u32));
                            let e2 = choose|e2: int| 0 <= e2 < twl[u as int].len() && twl[u as int][e2] == t as u32;
                            assert(before[twl[u as int][e2] as int] == before[u as int]);
                        }
                    }
                }
            }
        }
        k += 1;
    }
    proof {
        assert forall|t: int| 0 <= t < n implies (#[trigger] face_of@[t] as int) < faces@.len() by {
            assert(ov.contains(t as usize));
            let q = choose|q: int| 0 <= q < ov.len() && ov[q] == t as usize;
            assert(face_of@[ov[q] as int] != usize::MAX);
        }
        let parts = face_parts(faces@);
        assert forall|t: int| 0 <= t < n implies #[trigger] in_some_face(parts, t) by {
            assert(face_of@[t] != usize::MAX);
            let f = face_of@[t] as int;
            assert(faces@[f].tris@.contains(t as u32));
            assert(parts[f].1 == faces@[f].tris@);
        }
        assert forall|f1: int, f2: int, t: u32|
            0 <= f1 < parts.len() && 0 <= f2 < parts.len() && #[trigger] parts[f1].1.contains(t) && #[trigger] parts[f2].1.contains(t)
                implies f1 == f2 by {
            assert(parts[f1].1 == faces@[f1].tris@ && parts[f2].1 == faces@[f2].tris@);
            let q = choose|q: int| 0 <= q < faces@[f1].tris@.len() && faces@[f1].tris@[q] == t;
            assert((faces@[f1].tris@[q] as int) < n);
            assert(faces@[f1].tris@.contains(t as int as u32));
        }
        assert forall|f: int, t: u32| 0 <= f < parts.len() && #[trigger] parts[f].1.contains(t)
            implies t < g.len() && g[t as int] == parts[f].0 by {
            assert(parts[f].1 == faces@[f].tris@ && parts[f].0 == faces@[f].group);
            let q = choose|q: int| 0 <= q < faces@[f].tris@.len() && faces@[f].tris@[q] == t;
            assert((faces@[f].tris@[q] as int) < n);
            assert(faces@[f].tris@.contains(t as int as u32));
        }
        assert forall|f: int, t: u32, e: int|
            0 <= f < parts.len() && #[trigger] parts[f].1.contains(t) && 0 <= e < 3 && g[twl[t as int][e] as int] == g[t as int]
                implies parts[f].1.contains(#[trigger] twl[t as int][e]) by {
            assert(parts[f].1 == faces@[f].tris@);
            let q = choose|q: int| 0 <= q < faces@[f].tris@.len() && faces@[f].tris@[q] == t;
            assert((faces@[f].tris@[q] as int) < n);
            assert(faces@[f].tris@.contains(t as int as u32));
            assert(face_of@[t as int] == f);
            let u = twl[t as int][e];
            assert(face_of@[u as int] == f);
            assert(faces@[f].tris@.contains(u as int as u32));
        }
        assert forall|f: int| 0 <= f < parts.len() implies #[trigger] linked(twl, parts[f].1) by {
            assert(parts[f].1 == faces@[f].tris@);
        }
    }
    (face_of, faces)
}

// ---------------------------------------------------------------------------
// Edges, vertices and face loops
// ---------------------------------------------------------------------------

/// An edge of the B-Rep: the mesh vertices of its chain from the start to
/// the end vertex (first == last for a closed edge); `faces[0]` lies to
/// the left of this direction, `faces[1]` to the right.
pub struct TopoEdge {
    pub chain: Vec<u32>,
    pub faces: [usize; 2],
    pub start: usize,
    pub end: usize,
}

/// A vertex of the B-Rep: its mesh vertex and the faces that meet there.
pub struct TopoVertex {
    pub mesh_vertex: u32,
    pub faces: Vec<usize>,
}

/// The B-Rep topology of a closed mesh and its face groups.
pub struct MeshTopo {
    pub faces: Vec<TopoFace>,
    pub edges: Vec<TopoEdge>,
    pub vertices: Vec<TopoVertex>,
    /// Triangles, oriented with outward normals.
    pub tris: Vec<[u32; 3]>,
    /// Euler characteristic V - E + F of the mesh.
    pub mesh_euler: i64,
    /// Ungrouped triangles given to a neighbouring group.
    pub absorbed: usize,
    /// The mesh was inside out and has been turned over.
    pub flipped: bool,
}

/// The face to the left of the directed side from `a` to `b`.
/// The face to the left of the directed side from `a` to `b`, by the side
/// map `half` and the face of each triangle.
pub open spec fn left_face(half: Map<u64, u32>, face_of: Seq<usize>, a: u32, b: u32) -> Option<usize> {
    let k = pair_code(a as int, b as int);
    if half.contains_key(k) && (half[k] as int) < face_of.len() {
        Some(face_of[half[k] as int])
    } else {
        None
    }
}

/// The mesh edge between `a` and `b` has two different faces on its sides.
pub open spec fn between_faces(half: Map<u64, u32>, face_of: Seq<usize>, a: u32, b: u32) -> bool {
    &&& left_face(half, face_of, a, b) is Some
    &&& left_face(half, face_of, b, a) is Some
    &&& left_face(half, face_of, a, b) != left_face(half, face_of, b, a)
}

/// Every neighbour listed for a vertex in the boundary graph `adj` is
/// across a mesh edge with different faces on its sides.
pub open spec fn adj_between(adj: Map<u32, Vec<u32>>, half: Map<u64, u32>, face_of: Seq<usize>) -> bool {
    forall|a: u32, j: int|
        #![trigger adj[a]@[j]]
        adj.contains_key(a) && 0 <= j < adj[a]@.len() ==> between_faces(half, face_of, a, adj[a]@[j])
}

fn face_left(half: &HashMap<u64, u32>, face_of: &Vec<usize>, a: u32, b: u32) -> (r: Option<usize>)
    ensures
        r == left_face(half@, face_of@, a, b),
{
    let k = pair_code_exec(a, b);
    match half.get(&k) {
        Some(t) => {
            let t = *t as usize;
            if t < face_of.len() {
                Some(face_of[t])
            } else {
                None
            }
        },
        None => None,
    }
}

/// The edge between `a` and `b` separates two faces.
fn is_boundary(half: &HashMap<u64, u32>, face_of: &Vec<usize>, a: u32, b: u32) -> (r: Option<bool>)
    ensures
        r == Some(true) <==> between_faces(half@, face_of@, a, b),
{
    match (face_left(half, face_of, a, b), face_left(half, face_of, b, a)) {
        (Some(x), Some(y)) => Some(x != y),
        _ => None,
    }
}

/// The faces on the two sides of the edge between `a` and `b`, smaller first.
fn face_pair(half: &HashMap<u64, u32>, face_of: &Vec<usize>, a: u32, b: u32) -> (r: Option<(usize, usize)>) {
    match (face_left(half, face_of, a, b), face_left(half, face_of, b, a)) {
        (Some(x), Some(y)) => Some(if x < y { (x, y) } else { (y, x) }),
        _ => None,
    }
}

/// The values ascending.
fn sort_u32(v: &Vec<u32>) -> (r: Vec<u32>)
    ensures
        r@.len() == v@.len(),
        forall|j: int| 0 <= j < r@.len() ==> v@.contains(#[trigger] r@[j]),
{
    let mut recs: Vec<(u64, u32)> = Vec::new();
    let mut i: usize = 0;
    while i < v.len()
        invariant
            i <= v@.len(),
            recs@.len() == i,
            forall|q: int| 0 <= q < i ==> #[trigger] recs@[q] == (v@[q] as u64, v@[q]),
        decreases v@.len() - i,
    {
        recs.push((v[i] as u64, v[i]));
        i += 1;
    }
    let ghost before = recs@;
    par_sort_by_key(&mut recs);
    proof {
        broadcast use vstd::seq_lib::group_to_multiset_ensures;
        assert(recs@.to_multiset().len() == v@.len());
    }
    let mut r: Vec<u32> = Vec::new();
    let mut j: usize = 0;
    while j < recs.len()
        invariant
            j <= recs@.len(),
            r@.len() == j,
            recs@.to_multiset() == before.to_multiset(),
            forall|q: int| 0 <= q < before.len() ==> #[trigger] before[q] == (v@[q] as u64, v@[q]),
            before.len() == v@.len(),
            forall|q: int| 0 <= q < j ==> v@.contains(#[trigger] r@[q]),
        decreases recs@.len() - j,
    {
        proof {
            broadcast use vstd::seq_lib::group_to_multiset_ensures;
            let x = recs@[j as int];
            assert(recs@.contains(x));
            assert(recs@.to_multiset().count(x) > 0);
            assert(before.to_multiset().count(x) > 0);
            assert(before.contains(x));
            let q = choose|q: int| 0 <= q < before.len() && before[q] == recs@[j as int];
            assert(v@[q] == recs@[j as int].1);
        }
        r.push(recs[j].1);
        j += 1;
    }
    r
}

fn sort_u64(v: &Vec<u64>) -> (r: Vec<u64>) {
    let mut recs: Vec<(u64, u64)> = Vec::new();
    let mut i: usize = 0;
    while i < v.len()
        invariant
            i <= v@.len(),
        decreases v@.len() - i,
    {
        recs.push((v[i], v[i]));
        i += 1;
    }
    par_sort_by_key(&mut recs);
    let mut r: Vec<u64> = Vec::new();
    let mut j: usize = 0;
    while j < recs.len()
        invariant
            j <= recs@.len(),
        decreases recs@.len() - j,
    {
        r.push(recs[j].1);
        j += 1;
    }
    r
}

/// The boundary neighbours of `v`.
fn nbrs(adj: &HashMap<u32, Vec<u32>>, v: u32) -> (r: Vec<u32>)
    ensures
        adj@.contains_key(v) ==> r@ == adj@[v]@,
        !adj@.contains_key(v) ==> r@.len() == 0,
{
    match adj.get(&v) {
        Some(l) => {
            let mut c: Vec<u32> = Vec::new();
            let mut i: usize = 0;
            while i < l.len()
                invariant
                    i <= l@.len(),
                    c@ == l@.take(i as int),
                decreases l@.len() - i,
            {
                c.push(l[i]);
                i += 1;
                assert(c@ =~= l@.take(i as int));
            }
            assert(c@ =~= l@);
            c
        },
        None => Vec::new(),
    }
}

/// A chain of boundary edges from `start` through `first`, to the next
/// B-Rep vertex or back to `start`; its edges are marked used.
fn walk_chain(
    adj: &HashMap<u32, Vec<u32>>,
    vertex_of: &HashMap<u32, usize>,
    used: &mut HashSet<u64>,
    start: u32,
    first: u32,
    bound: usize,
) -> (chain: Vec<u32>)
    ensures
        chain@.len() >= 2,
        chain@[0] == start,
        chain@[1] == first,
{
    let mut chain: Vec<u32> = Vec::new();
    chain.push(start);
    chain.push(first);
    used.insert(key_code_exec(start, first));
    let mut fuel = bound;
    while fuel > 0
        invariant
            chain@.len() >= 2,
            chain@[0] == start,
            chain@[1] == first,
        decreases fuel,
    {
        fuel -= 1;
        let cur = chain[chain.len() - 1];
        if vertex_of.contains_key(&cur) || cur == start {
            break;
        }
        let prev = chain[chain.len() - 2];
        let l = nbrs(adj, cur);
        let mut next: Option<u32> = None;
        let mut i: usize = 0;
        while i < l.len()
            invariant
                i <= l@.len(),
            decreases l@.len() - i,
        {
            let n = l[i];
            if n != prev && !used.contains(&key_code_exec(cur, n)) {
                next = Some(n);
                break;
            }
            i += 1;
        }
        if next.is_none() {
            let mut i: usize = 0;
            while i < l.len()
                invariant
                    i <= l@.len(),
                decreases l@.len() - i,
            {
                let n = l[i];
                if n == start && !used.contains(&key_code_exec(cur, n)) {
                    next = Some(n);
                    break;
                }
                i += 1;
            }
        }
        match next {
            None => break,
            Some(n) => {
                used.insert(key_code_exec(cur, n));
                chain.push(n);
            },
        }
    }
    chain
}

/// The next boundary side of the face to the left of the boundary side
/// from `a` to `b`: turning around `b` through the face's own triangles.
fn next_half(
    tris: &Vec<[u32; 3]>,
    half: &HashMap<u64, u32>,
    face_of: &Vec<usize>,
    a: u32,
    b: u32,
) -> (r: Option<(u32, u32)>)
    ensures
        r matches Some((x, y)) ==> x == b,
{
    let mut t = match half.get(&pair_code_exec(a, b)) {
        Some(t) => *t as usize,
        None => {
            return None;
        },
    };
    let mut turns: usize = 0;
    while turns < 4096
        invariant
            turns <= 4096,
        decreases 4096 - turns,
    {
        turns += 1;
        if t >= tris.len() {
            return None;
        }
        let tri = tris[t];
        let k = if tri[0] == b {
            0
        } else if tri[1] == b {
            1
        } else if tri[2] == b {
            2
        } else {
            return None;
        };
        let c = tri[(k + 1) % 3];
        match is_boundary(half, face_of, b, c) {
            Some(true) => {
                return Some((b, c));
            },
            Some(false) => {},
            None => {
                return None;
            },
        }
        t = match half.get(&pair_code_exec(c, b)) {
            Some(u) => *u as usize,
            None => {
                return None;
            },
        };
    }
    None
}

/// Every loop use of a face runs along an edge with that face on its side.
pub open spec fn loops_fit(faces: Seq<TopoFace>, edges: Seq<TopoEdge>) -> bool {
    forall|f: int, l: int, u: int|
        0 <= f < faces.len() && 0 <= l < faces[f].loops@.len() && 0 <= u < faces[f].loops@[l]@.len() ==> {
            let (e, fwd) = #[trigger] faces[f].loops@[l]@[u];
            &&& (e as int) < edges.len()
            &&& edges[e as int].faces[if fwd { 0int } else { 1int }] as int == f
        }
}

/// An error of tracing the edge chains and face loops.
pub open spec fn tracing_error(e: TopoError) -> bool {
    match e {
        TopoError::ChainEnd | TopoError::NoEdgeStart | TopoError::InconsistentLoop => true,
        TopoError::LoopNotTraced(_) | TopoError::LoopTouches(_) => true,
        _ => false,
    }
}

/// Every loop of every face has at least one edge use.
pub open spec fn loops_nonempty(faces: Seq<TopoFace>) -> bool {
    forall|f: int, l: int| 0 <= f < faces.len() && 0 <= l < faces[f].loops@.len() ==> #[trigger] faces[f].loops@[l]@.len() > 0
}

/// The faces' groups and triangles, without their loops.
pub open spec fn face_parts(faces: Seq<TopoFace>) -> Seq<(i32, Seq<u32>)> {
    faces.map_values(|fc: TopoFace| (fc.group, fc.tris@))
}

/// The edge chains between B-Rep vertices, the vertices, and the loops of
/// each face.
fn edges_and_loops(
    tris: &Vec<[u32; 3]>,
    half: &HashMap<u64, u32>,
    face_of: &Vec<usize>,
    faces: &mut Vec<TopoFace>,
) -> (r: Result<(Vec<TopoEdge>, Vec<TopoVertex>), TopoError>)
    requires
        3 * tris@.len() <= usize::MAX,
        forall|f: int| 0 <= f < old(faces)@.len() ==> (#[trigger] old(faces)@[f]).loops@.len() == 0,
    ensures
        face_parts(final(faces)@) == face_parts(old(faces)@),
        r matches Err(e) ==> tracing_error(e),
        r matches Ok((edges, vertices)) ==> {
            &&& loops_fit(final(faces)@, edges@)
            &&& loops_nonempty(final(faces)@)
            &&& forall|e: int| 0 <= e < edges@.len() ==> (#[trigger] edges@[e]).chain@.len() >= 2
                && (edges@[e].start as int) < vertices@.len() && (edges@[e].end as int) < vertices@.len()
                && edges@[e].faces[0] != edges@[e].faces[1]
        },
{
    let nt = tris.len();
    let bound = 3 * nt;
    let ghost parts0 = face_parts(faces@);
    // The boundary graph: mesh edges between two faces.
    let mut adj: HashMap<u32, Vec<u32>> = HashMap::new();
    let mut keys: Vec<u32> = Vec::new();
    let mut t: usize = 0;
    assert(adj_between(adj@, half@, face_of@));
    while t < nt
        invariant
            nt == tris@.len(),
            adj_between(adj@, half@, face_of@),
        decreases nt - t,
    {
        let tri = tris[t];
        let mut k: usize = 0;
        while k < 3
            invariant
                k <= 3,
                adj_between(adj@, half@, face_of@),
            decreases 3 - k,
        {
            let a = tri[k];
            let b = tri[(k + 1) % 3];
            if a < b {
                match is_boundary(half, face_of, a, b) {
                    Some(true) => {
                        let ghost a0 = adj@;
                        let mut la = match adj.remove(&a) {
                            Some(l) => l,
                            None => {
                                keys.push(a);
                                Vec::new()
                            },
                        };
                        proof {
                            assert(forall|j: int| 0 <= j < la@.len() ==> between_faces(half@, face_of@, a, #[trigger] la@[j]));
                        }
                        la.push(b);
                        adj.insert(a, la);
                        assert(adj_between(adj@, half@, face_of@)) by {
                            assert forall|x: u32, j: int| adj@.contains_key(x) && 0 <= j < adj@[x]@.len()
                                implies between_faces(half@, face_of@, x, #[trigger] adj@[x]@[j]) by {
                                if x != a {
                                    assert(a0.contains_key(x) && adj@[x] == a0[x]);
                                } else if j < adj@[x]@.len() - 1 {
                                    assert(adj@[x]@[j] == la@[j]);
                                }
                            }
                        }
                        let ghost a1 = adj@;
                        let mut lb = match adj.remove(&b) {
                            Some(l) => l,
                            None => {
                                keys.push(b);
                                Vec::new()
                            },
                        };
                        proof {
                            assert(forall|j: int| 0 <= j < lb@.len() ==> between_faces(half@, face_of@, b, #[trigger] lb@[j]));
                        }
                        lb.push(a);
                        adj.insert(b, lb);
                        assert(adj_between(adj@, half@, face_of@)) by {
                            assert forall|x: u32, j: int| adj@.contains_key(x) && 0 <= j < adj@[x]@.len()
                                implies between_faces(half@, face_of@, x, #[trigger] adj@[x]@[j]) by {
                                if x != b {
                                    assert(a1.contains_key(x) && adj@[x] == a1[x]);
                                } else if j < adj@[x]@.len() - 1 {
                                    assert(adj@[x]@[j] == lb@[j]);
                                }
                            }
                        }
                    },
                    Some(false) => {},
                    None => {
                        return Err(TopoError::InconsistentLoop);
                    },
                }
            }
            k += 1;
        }
        t += 1;
    }
    // B-Rep vertices: more than two faces meet.
    let mut vk: Vec<u32> = Vec::new();
    let mut rest: Vec<u32> = Vec::new();
    let mut q: usize = 0;
    while q < keys.len()
        invariant
            q <= keys@.len(),
        decreases keys@.len() - q,
    {
        let v = keys[q];
        let l = nbrs(&adj, v);
        let corner = if l.len() != 2 {
            true
        } else {
            match (face_pair(half, face_of, v, l[0]), face_pair(half, face_of, v, l[1])) {
                (Some(p0), Some(p1)) => p0.0 != p1.0 || p0.1 != p1.1,
                _ => {
                    return Err(TopoError::InconsistentLoop);
                },
            }
        };
        if corner {
            vk.push(v);
        } else {
            rest.push(v);
        }
        q += 1;
    }
    let vkeys = sort_u32(&vk);
    let rest = sort_u32(&rest);
    let mut vertices: Vec<TopoVertex> = Vec::new();
    let mut vertex_of: HashMap<u32, usize> = HashMap::new();
    let mut q: usize = 0;
    while q < vkeys.len()
        invariant
            q <= vkeys@.len(),
        decreases vkeys@.len() - q,
    {
        vertex_of.insert(vkeys[q], vertices.len());
        vertices.push(TopoVertex { mesh_vertex: vkeys[q], faces: Vec::new() });
        q += 1;
    }
    // Edge chains from the B-Rep vertices, then the closed ones.
    let mut starts: Vec<u32> = Vec::new();
    let mut q: usize = 0;
    while q < vkeys.len()
        invariant
            q <= vkeys@.len(),
        decreases vkeys@.len() - q,
    {
        starts.push(vkeys[q]);
        q += 1;
    }
    let mut q: usize = 0;
    while q < rest.len()
        invariant
            q <= rest@.len(),
        decreases rest@.len() - q,
    {
        starts.push(rest[q]);
        q += 1;
    }
    let mut used: HashSet<u64> = HashSet::new();
    let mut edges: Vec<TopoEdge> = Vec::new();
    let mut q: usize = 0;
    while q < starts.len()
        invariant
            q <= starts@.len(),
            adj_between(adj@, half@, face_of@),
            forall|e: int| 0 <= e < edges@.len() ==> (#[trigger] edges@[e]).chain@.len() >= 2
                && (edges@[e].start as int) < vertices@.len() && (edges@[e].end as int) < vertices@.len()
                && edges@[e].faces[0] != edges@[e].faces[1],
        decreases starts@.len() - q,
    {
        let s = starts[q];
        let around = nbrs(&adj, s);
        let nbs = sort_u32(&around);
        let mut j: usize = 0;
        while j < nbs.len()
            invariant
                j <= nbs@.len(),
                adj_between(adj@, half@, face_of@),
                adj@.contains_key(s) ==> around@ == adj@[s]@,
                !adj@.contains_key(s) ==> around@.len() == 0,
                forall|x: int| 0 <= x < nbs@.len() ==> around@.contains(#[trigger] nbs@[x]),
                forall|e: int| 0 <= e < edges@.len() ==> (#[trigger] edges@[e]).chain@.len() >= 2
                    && (edges@[e].start as int) < vertices@.len() && (edges@[e].end as int) < vertices@.len()
                    && edges@[e].faces[0] != edges@[e].faces[1],
            decreases nbs@.len() - j,
        {
            let n = nbs[j];
            proof {
                assert(around@.contains(nbs@[j as int]));
                let i = choose|i: int| 0 <= i < around@.len() && around@[i] == n;
                assert(adj@[s]@[i] == n);
                assert(between_faces(half@, face_of@, s, n));
            }
            j += 1;
            if used.contains(&key_code_exec(s, n)) {
                continue;
            }
            let chain = walk_chain(&adj, &vertex_of, &mut used, s, n, bound);
            let first = chain[0];
            let last = chain[chain.len() - 1];
            let closed = first == last;
            if !closed && (!vertex_of.contains_key(&first) || !vertex_of.contains_key(&last)) {
                return Err(TopoError::ChainEnd);
            }
            let start = match vertex_of.get(&first) {
                Some(v) => *v,
                None => {
                    vertices.push(TopoVertex { mesh_vertex: first, faces: Vec::new() });
                    vertices.len() - 1
                },
            };
            let end = if closed {
                start
            } else {
                match vertex_of.get(&last) {
                    Some(v) => *v,
                    None => {
                        return Err(TopoError::ChainEnd);
                    },
                }
            };
            if start >= vertices.len() || end >= vertices.len() {
                return Err(TopoError::ChainEnd);
            }
            let fl = match (face_left(half, face_of, chain[0], chain[1]), face_left(half, face_of, chain[1], chain[0])) {
                (Some(x), Some(y)) => [x, y],
                _ => {
                    return Err(TopoError::InconsistentLoop);
                },
            };
            edges.push(TopoEdge { chain, faces: fl, start, end });
        }
        q += 1;
    }
    // Directed mesh edge -> (edge, same sense).
    let mut edge_of: HashMap<u64, (usize, bool)> = HashMap::new();
    let mut halves: Vec<u64> = Vec::new();
    let mut e: usize = 0;
    while e < edges.len()
        invariant
            e <= edges@.len(),
        decreases edges@.len() - e,
    {
        let ch = &edges[e].chain;
        let cl = ch.len();
        let mut w: usize = 0;
        while w < cl && cl - w >= 2
            invariant
                cl == ch@.len(),
                w <= cl,
            decreases cl - w,
        {
            let fw = pair_code_exec(ch[w], ch[w + 1]);
            let bw = pair_code_exec(ch[w + 1], ch[w]);
            if !edge_of.contains_key(&fw) {
                halves.push(fw);
            }
            edge_of.insert(fw, (e, true));
            if !edge_of.contains_key(&bw) {
                halves.push(bw);
            }
            edge_of.insert(bw, (e, false));
            w += 1;
        }
        e += 1;
    }
    let halves = sort_u64(&halves);
    // Face loops, face by face.
    let nf = faces.len();
    let mut loops_of: Vec<Vec<Vec<(usize, bool)>>> = Vec::new();
    while loops_of.len() < nf
        invariant
            loops_of@.len() <= nf,
            forall|f: int| 0 <= f < loops_of@.len() ==> (#[trigger] loops_of@[f])@.len() == 0,
        decreases nf - loops_of@.len(),
    {
        loops_of.push(Vec::new());
    }
    let mut visited: HashSet<u64> = HashSet::new();
    let mut hq: usize = 0;
    while hq < halves.len()
        invariant
            hq <= halves@.len(),
            loops_of@.len() == nf,
            faces@.len() == nf,
            forall|f: int, l: int, u: int|
                0 <= f < nf && 0 <= l < loops_of@[f]@.len() && 0 <= u < loops_of@[f]@[l]@.len() ==> {
                    let (e, fwd) = #[trigger] loops_of@[f]@[l]@[u];
                    &&& (e as int) < edges@.len()
                    &&& edges@[e as int].faces[if fwd { 0int } else { 1int }] as int == f
                },
            forall|f: int, l: int| 0 <= f < nf && 0 <= l < loops_of@[f]@.len() ==> #[trigger] loops_of@[f]@[l]@.len() > 0,
        decreases halves@.len() - hq,
    {
        let code0 = halves[hq];
        hq += 1;
        if visited.contains(&code0) {
            continue;
        }
        let h0 = ((code0 / 0x1_0000_0000) as u32, (code0 % 0x1_0000_0000) as u32);
        let f = match face_left(half, face_of, h0.0, h0.1) {
            Some(f) => f,
            None => {
                return Err(TopoError::InconsistentLoop);
            },
        };
        if f >= nf {
            return Err(TopoError::InconsistentLoop);
        }
        let group_no = faces[f].group.wrapping_add(1);
        let mut lp: Vec<(u32, u32)> = Vec::new();
        lp.push(h0);
        visited.insert(pair_code_exec(h0.0, h0.1));
        let mut h = h0;
        let mut fuel = bound;
        loop
            invariant
                lp@.len() >= 1,
            decreases fuel,
        {
            if fuel == 0 {
                return Err(TopoError::LoopNotTraced(group_no));
            }
            fuel -= 1;
            let n = match next_half(tris, half, face_of, h.0, h.1) {
                Some(n) => n,
                None => {
                    return Err(TopoError::LoopNotTraced(group_no));
                },
            };
            if n.0 == h0.0 && n.1 == h0.1 {
                break;
            }
            let nc = pair_code_exec(n.0, n.1);
            if visited.contains(&nc) {
                return Err(TopoError::LoopTouches(group_no));
            }
            visited.insert(nc);
            lp.push(n);
            h = n;
        }
        // Start at the beginning of an edge use, then merge runs.
        let mut i0: Option<usize> = None;
        let mut p: usize = 0;
        while p < lp.len()
            invariant
                p <= lp@.len(),
                i0 matches Some(i) ==> i < lp@.len(),
            decreases lp@.len() - p,
        {
            match use_starts(&edge_of, &edges, lp[p]) {
                Some(true) => {
                    i0 = Some(p);
                    break;
                },
                Some(false) => {},
                None => {
                    return Err(TopoError::InconsistentLoop);
                },
            }
            p += 1;
        }
        let i0 = match i0 {
            Some(i) => i,
            None => {
                return Err(TopoError::NoEdgeStart);
            },
        };
        let mut uses: Vec<(usize, bool, usize)> = Vec::new();
        let m = lp.len();
        let mut p: usize = 0;
        while p < m
            invariant
                p <= m,
                m == lp@.len(),
                i0 < m,
                p > 0 ==> uses@.len() > 0,
            decreases m - p,
        {
            let idx = if p < m - i0 { i0 + p } else { p - (m - i0) };
            let hh = lp[idx];
            let (e, fwd) = match edge_of.get(&pair_code_exec(hh.0, hh.1)) {
                Some(v) => *v,
                None => {
                    return Err(TopoError::InconsistentLoop);
                },
            };
            if e >= edges.len() {
                return Err(TopoError::InconsistentLoop);
            }
            let starts_here = match use_starts(&edge_of, &edges, hh) {
                Some(b) => b,
                None => {
                    return Err(TopoError::InconsistentLoop);
                },
            };
            let ul = uses.len();
            let cl = edges[e].chain.len();
            let merge = ul > 0 && cl > 0 && uses[ul - 1].0 == e && uses[ul - 1].1 == fwd && uses[ul - 1].2 < cl - 1
                && !starts_here;
            if merge {
                let (le, lf, ln) = uses[ul - 1];
                uses.set(ul - 1, (le, lf, ln + 1));
            } else {
                uses.push((e, fwd, 1));
            }
            p += 1;
        }
        let mut lpu: Vec<(usize, bool)> = Vec::new();
        let mut p: usize = 0;
        while p < uses.len()
            invariant
                p <= uses@.len(),
                uses@.len() > 0,
                lpu@.len() == p,
                forall|u: int| 0 <= u < p ==> {
                    let (e, fwd) = #[trigger] lpu@[u];
                    &&& (e as int) < edges@.len()
                    &&& edges@[e as int].faces[if fwd { 0int } else { 1int }] == f
                },
            decreases uses@.len() - p,
        {
            let (e, fwd, n) = uses[p];
            if e >= edges.len() {
                return Err(TopoError::InconsistentLoop);
            }
            let expect = if fwd {
                edges[e].faces[0]
            } else {
                edges[e].faces[1]
            };
            let cl = edges[e].chain.len();
            if cl == 0 || n != cl - 1 || expect != f {
                return Err(TopoError::InconsistentLoop);
            }
            lpu.push((e, fwd));
            p += 1;
        }
        // Append the loop to face `f`.
        let ghost before = loops_of@;
        let mut fl: Vec<Vec<(usize, bool)>> = Vec::new();
        loops_of.set_and_swap(f, &mut fl);
        fl.push(lpu);
        loops_of.set_and_swap(f, &mut fl);
        proof {
            assert forall|f2: int, l: int, u: int|
                0 <= f2 < nf && 0 <= l < loops_of@[f2]@.len() && 0 <= u < loops_of@[f2]@[l]@.len() implies {
                    let (e, fwd) = #[trigger] loops_of@[f2]@[l]@[u];
                    &&& (e as int) < edges@.len()
                    &&& edges@[e as int].faces[if fwd { 0int } else { 1int }] as int == f2
                } by {
                if f2 != f as int || l < before[f2]@.len() {
                    assert(loops_of@[f2]@[l] == before[f2]@[l]);
                }
            }
            assert forall|f2: int, l: int| 0 <= f2 < nf && 0 <= l < loops_of@[f2]@.len() implies #[trigger] loops_of@[f2]@[l]@.len() > 0 by {
                if f2 != f as int || l < before[f2]@.len() {
                    assert(loops_of@[f2]@[l] == before[f2]@[l]);
                }
            }
        }
    }
    // Hand the loops to their faces.
    let mut f: usize = 0;
    while f < nf
        invariant
            nf == faces@.len(),
            f <= nf,
            loops_of@.len() == nf,
            face_parts(faces@) == parts0,
            forall|g: int| f <= g < nf ==> (#[trigger] faces@[g]).loops@.len() == 0,
            forall|g: int, l: int, u: int|
                f <= g < nf && 0 <= l < loops_of@[g]@.len() && 0 <= u < loops_of@[g]@[l]@.len() ==> {
                    let (e, fwd) = #[trigger] loops_of@[g]@[l]@[u];
                    &&& (e as int) < edges@.len()
                    &&& edges@[e as int].faces[if fwd { 0int } else { 1int }] as int == g
                },
            forall|g: int, l: int, u: int|
                0 <= g < f && 0 <= l < faces@[g].loops@.len() && 0 <= u < faces@[g].loops@[l]@.len() ==> {
                    let (e, fwd) = #[trigger] faces@[g].loops@[l]@[u];
                    &&& (e as int) < edges@.len()
                    &&& edges@[e as int].faces[if fwd { 0int } else { 1int }] as int == g
                },
            forall|g: int, l: int| f <= g < nf && 0 <= l < loops_of@[g]@.len() ==> #[trigger] loops_of@[g]@[l]@.len() > 0,
            forall|g: int, l: int| 0 <= g < f && 0 <= l < faces@[g].loops@.len() ==> #[trigger] faces@[g].loops@[l]@.len() > 0,
        decreases nf - f,
    {
        let ghost fb = faces@;
        let ghost lb = loops_of@;
        let mut fl: Vec<Vec<(usize, bool)>> = Vec::new();
        loops_of.set_and_swap(f, &mut fl);
        let mut fc = TopoFace { group: 0, tris: Vec::new(), loops: Vec::new() };
        faces.set_and_swap(f, &mut fc);
        fc.loops = fl;
        faces.set_and_swap(f, &mut fc);
        proof {
            assert(face_parts(faces@) =~= face_parts(fb));
            assert forall|g: int, l: int, u: int|
                0 <= g < f + 1 && 0 <= l < faces@[g].loops@.len() && 0 <= u < faces@[g].loops@[l]@.len() implies {
                    let (e, fwd) = #[trigger] faces@[g].loops@[l]@[u];
                    &&& (e as int) < edges@.len()
                    &&& edges@[e as int].faces[if fwd { 0int } else { 1int }] as int == g
                } by {
                if g < f {
                    assert(faces@[g] == fb[g]);
                } else {
                    assert(faces@[g].loops@ == lb[g]@);
                }
            }
            assert forall|g: int, l: int, u: int|
                f + 1 <= g < nf && 0 <= l < loops_of@[g]@.len() && 0 <= u < loops_of@[g]@[l]@.len() implies {
                    let (e, fwd) = #[trigger] loops_of@[g]@[l]@[u];
                    &&& (e as int) < edges@.len()
                    &&& edges@[e as int].faces[if fwd { 0int } else { 1int }] as int == g
                } by {
                assert(loops_of@[g] == lb[g]);
            }
            assert forall|g: int| f + 1 <= g < nf implies (#[trigger] faces@[g]).loops@.len() == 0 by {
                assert(faces@[g] == fb[g]);
            }
            assert forall|g: int, l: int| 0 <= g < f + 1 && 0 <= l < faces@[g].loops@.len() implies #[trigger] faces@[g].loops@[l]@.len() > 0 by {
                if g < f {
                    assert(faces@[g] == fb[g]);
                } else {
                    assert(faces@[g].loops@ == lb[g]@);
                }
            }
            assert forall|g: int, l: int| f + 1 <= g < nf && 0 <= l < loops_of@[g]@.len() implies #[trigger] loops_of@[g]@[l]@.len() > 0 by {
                assert(loops_of@[g] == lb[g]);
            }
        }
        f += 1;
    }
    Ok((edges, vertices))
}

/// Whether the use of the directed side `hh` starts at the beginning of
/// its edge's use (in the direction of the use).
fn use_starts(edge_of: &HashMap<u64, (usize, bool)>, edges: &Vec<TopoEdge>, hh: (u32, u32)) -> (r: Option<bool>) {
    match edge_of.get(&pair_code_exec(hh.0, hh.1)) {
        Some(v) => {
            let (e, fwd) = *v;
            if e >= edges.len() {
                return None;
            }
            let ch = &edges[e].chain;
            if ch.len() == 0 {
                return None;
            }
            let at = if fwd {
                ch[0]
            } else {
                ch[ch.len() - 1]
            };
            Some(hh.0 == at)
        },
        None => None,
    }
}

// ---------------------------------------------------------------------------
// Disks with holes, and the whole build
// ---------------------------------------------------------------------------

/// Corner `y` of the face triangles `ft`: corner `y % 3` of triangle `ft[y / 3]`.
pub open spec fn corner(tris: Seq<[u32; 3]>, ft: Seq<u32>, y: int) -> u32 {
    tris[ft[y / 3] as int][y % 3]
}

/// The edge key of side `y` of the face triangles.
pub open spec fn side_key(tris: Seq<[u32; 3]>, ft: Seq<u32>, y: int) -> u64 {
    key_code(tris[ft[y / 3] as int][y % 3], tris[ft[y / 3] as int][(y % 3 + 1) % 3])
}

/// The vertices of the face triangles `ft`.
pub open spec fn face_verts(tris: Seq<[u32; 3]>, ft: Seq<u32>) -> Set<u32> {
    Set::new(|v: u32| exists|y: int| 0 <= y < 3 * ft.len() && corner(tris, ft, y) == v)
}

/// The (undirected) edges of the face triangles `ft`, by their keys.
pub open spec fn face_edges(tris: Seq<[u32; 3]>, ft: Seq<u32>) -> Set<u64> {
    Set::new(|c: u64| exists|y: int| 0 <= y < 3 * ft.len() && side_key(tris, ft, y) == c)
}

/// A face is a disk with holes: V - E + F = 2 - loops.
pub open spec fn is_disk(tris: Seq<[u32; 3]>, fc: TopoFace) -> bool {
    face_verts(tris, fc.tris@).len() - face_edges(tris, fc.tris@).len() + fc.tris@.len() == 2 - fc.loops@.len()
}

/// Checks V - E + F = 2 - loops of one face.
fn disk_check(tris: &Vec<[u32; 3]>, fc: &TopoFace) -> (r: Option<bool>)
    ensures
        r matches Some(b) ==> b == is_disk(tris@, *fc),
{
    let ft = &fc.tris;
    let m = ft.len();
    let mut vs: HashSet<u32> = HashSet::new();
    let mut es: HashSet<u64> = HashSet::new();
    let mut k: usize = 0;
    while k < m
        invariant
            m == ft@.len(),
            k <= m,
            forall|v: u32| #[trigger] vs@.contains(v) <==> exists|y: int| 0 <= y < 3 * k && corner(tris@, ft@, y) == v,
            forall|c: u64| #[trigger] es@.contains(c) <==> exists|y: int| 0 <= y < 3 * k && side_key(tris@, ft@, y) == c,
        decreases m - k,
    {
        let t = ft[k] as usize;
        if t >= tris.len() {
            return None;
        }
        let tri = tris[t];
        let mut j: usize = 0;
        while j < 3
            invariant
                m == ft@.len(),
                k < m,
                t == ft@[k as int],
                tri == tris@[t as int],
                j <= 3,
                forall|v: u32| #[trigger] vs@.contains(v) <==> exists|y: int| 0 <= y < 3 * k + j && corner(tris@, ft@, y) == v,
                forall|c: u64| #[trigger] es@.contains(c) <==> exists|y: int| 0 <= y < 3 * k + j && side_key(tris@, ft@, y) == c,
            decreases 3 - j,
        {
            let ghost y = 3 * k + j;
            proof {
                lemma_side_div(k, j);
            }
            let ghost vb = vs@;
            let ghost eb = es@;
            let a = tri[j];
            let b = tri[(j + 1) % 3];
            assert(corner(tris@, ft@, y) == a);
            assert(side_key(tris@, ft@, y) == key_code(a, b));
            vs.insert(a);
            es.insert(key_code_exec(a, b));
            proof {
                assert forall|v: u32| #[trigger] vs@.contains(v) <==> exists|z: int| 0 <= z < y + 1 && corner(tris@, ft@, z) == v by {
                    if v == a {
                        assert(corner(tris@, ft@, y) == v);
                    } else if vs@.contains(v) {
                        assert(vb.contains(v));
                    }
                    if exists|z: int| 0 <= z < y + 1 && corner(tris@, ft@, z) == v {
                        let z = choose|z: int| 0 <= z < y + 1 && corner(tris@, ft@, z) == v;
                        if z < y {
                            assert(vb.contains(v));
                        }
                    }
                }
                assert forall|c: u64| #[trigger] es@.contains(c) <==> exists|z: int| 0 <= z < y + 1 && side_key(tris@, ft@, z) == c by {
                    if c == key_code(a, b) {
                        assert(side_key(tris@, ft@, y) == c);
                    } else if es@.contains(c) {
                        assert(eb.contains(c));
                    }
                    if exists|z: int| 0 <= z < y + 1 && side_key(tris@, ft@, z) == c {
                        let z = choose|z: int| 0 <= z < y + 1 && side_key(tris@, ft@, z) == c;
                        if z < y {
                            assert(eb.contains(c));
                        }
                    }
                }
            }
            j += 1;
        }
        k += 1;
    }
    assert(vs@ =~= face_verts(tris@, ft@));
    assert(es@ =~= face_edges(tris@, ft@));
    let chi: i128 = vs.len() as i128 - es.len() as i128 + m as i128;
    Some(chi == 2 - fc.loops.len() as i128)
}

/// The group numbers ascending, each once.
fn sorted_unique_ids(ids: &Vec<i32>) -> (r: Vec<i32>)
    ensures
        ids@.len() > 0 ==> r@.len() > 0,
{
    let mut recs: Vec<(u64, i32)> = Vec::new();
    let mut i: usize = 0;
    while i < ids.len()
        invariant
            i <= ids@.len(),
            recs@.len() == i,
        decreases ids@.len() - i,
    {
        recs.push(((ids[i] as i64 + 0x8000_0000) as u64, ids[i]));
        i += 1;
    }
    par_sort_by_key(&mut recs);
    proof {
        broadcast use vstd::seq_lib::group_to_multiset_ensures;
        assert(recs@.to_multiset().len() == ids@.len());
    }
    let mut r: Vec<i32> = Vec::new();
    let mut j: usize = 0;
    while j < recs.len()
        invariant
            j <= recs@.len(),
            j > 0 ==> r@.len() > 0,
        decreases recs@.len() - j,
    {
        let g = recs[j].1;
        if r.len() == 0 || r[r.len() - 1] != g {
            r.push(g);
        }
        j += 1;
    }
    r
}

/// Whether `v` is in `l`.
fn listed(l: &Vec<usize>, v: usize) -> (r: bool)
    ensures
        r == l@.contains(v),
{
    let mut i: usize = 0;
    while i < l.len()
        invariant
            i <= l@.len(),
            forall|q: int| 0 <= q < i ==> l@[q] != v,
        decreases l@.len() - i,
    {
        if l[i] == v {
            return true;
        }
        i += 1;
    }
    false
}

proof fn lemma_absorb_len(tris: Seq<[u32; 3]>, gid: Seq<i32>, fuel: nat)
    ensures
        absorb_all(tris, gid, fuel).0.len() == gid.len(),
    decreases fuel,
{
    if fuel > 0 && joining(tris, gid, gid.len() as int) > 0 {
        lemma_absorb_len(tris, absorb_round(tris, gid), (fuel - 1) as nat);
    }
}

/// The mesh vertices used by the first `k` triangles.
pub open spec fn verts_upto(tris: Seq<[u32; 3]>, k: int) -> Set<u32> {
    Set::new(|v: u32| exists|t: int, i: int| 0 <= t < k && 0 <= i < 3 && tris[t][i] == v)
}

/// The code of the undirected mesh edge of a side: smaller end first.
pub open spec fn edge_key(s: (u32, u32)) -> u64 {
    if s.0 <= s.1 {
        pair_code(s.0 as int, s.1 as int)
    } else {
        pair_code(s.1 as int, s.0 as int)
    }
}

/// The undirected mesh edges of the triangles.
pub open spec fn mesh_edges(tris: Seq<[u32; 3]>) -> Set<u64> {
    Set::new(|k: u64| exists|x: int| 0 <= x < 3 * tris.len() && edge_key(hside(tris, x)) == k)
}

/// The Euler characteristic V - E + F of the triangles: the vertices they
/// use, their undirected edges and their number.
pub open spec fn mesh_euler_of(tris: Seq<[u32; 3]>) -> int {
    verts_upto(tris, tris.len() as int).len() - mesh_edges(tris).len() + tris.len()
}

proof fn lemma_no_degenerate(tris: Seq<[u32; 3]>, k: int, t: int)
    requires
        0 <= t < k <= tris.len(),
        degenerate_count(tris, k) == 0,
    ensures
        !is_degenerate(tris[t]),
    decreases k,
{
    if t < k - 1 {
        lemma_no_degenerate(tris, k - 1, t);
    }
}

proof fn lemma_code_parts(a: u32, b: u32)
    ensures
        pair_code(a as int, b as int) as int / 0x1_0000_0000 == a,
        pair_code(a as int, b as int) as int % 0x1_0000_0000 == b,
{
    lemma_pair_code(a as int, b as int, a as int, b as int);
    vstd::arithmetic::div_mod::lemma_fundamental_div_mod_converse(
        pair_code(a as int, b as int) as int, 0x1_0000_0000, a as int, b as int);
}

/// The reverse of a side code.
pub open spec fn code_rev(k: u64) -> u64 {
    pair_code(k as int % 0x1_0000_0000, k as int / 0x1_0000_0000)
}

/// On a closed, consistently oriented manifold without degenerate
/// triangles, every undirected edge is two directed sides: the directed
/// side codes are twice as many as the edges.
proof fn lemma_half_count(tris: Seq<[u32; 3]>, m: Map<u64, u32>)
    requires
        half_map_ok(tris, m, 3 * tris.len() as int),
        closed_manifold(tris),
        degenerate_count(tris, tris.len() as int) == 0,
        m.dom().finite(),
    ensures
        m.dom().len() == 2 * mesh_edges(tris).len(),
{
    let n = tris.len() as int;
    let d = m.dom();
    let lo = d.filter(|k: u64| (k as int / 0x1_0000_0000) < (k as int % 0x1_0000_0000));
    let hi = d.filter(|k: u64| (k as int / 0x1_0000_0000) > (k as int % 0x1_0000_0000));
    assert forall|x: int| 0 <= x < 3 * n implies #[trigger] d.contains(pair_code(hside(tris, x).0 as int, hside(tris, x).1 as int)) by {
        let (a, b) = hside(tris, x);
        lemma_last_half_some(tris, a, b, 3 * n);
    }
    // Every code in the map is the code of a side.
    assert forall|k: u64| #[trigger] d.contains(k) implies exists|x: int| 0 <= x < 3 * n
        && pair_code(hside(tris, x).0 as int, hside(tris, x).1 as int) == k by {
        let a = (k as int / 0x1_0000_0000) as u32;
        let b = (k as int % 0x1_0000_0000) as u32;
        assert(pair_code(a as int, b as int) == k) by {
            lemma_pair_code(a as int, b as int, a as int, b as int);
        }
        lemma_last_half_some(tris, a, b, 3 * n);
        let x = choose|x: int| 0 <= x < 3 * n && hside(tris, x) == (a, b);
    }
    // No side runs from a vertex to itself.
    assert forall|x: int| 0 <= x < 3 * n implies #[trigger] hside(tris, x).0 != hside(tris, x).1 by {
        lemma_no_degenerate(tris, n, x / 3);
    }
    assert(d =~= lo + hi) by {
        assert forall|k: u64| d.contains(k) implies #[trigger] (lo + hi).contains(k) by {
            let x = choose|x: int| 0 <= x < 3 * n && pair_code(hside(tris, x).0 as int, hside(tris, x).1 as int) == k;
            let (a, b) = hside(tris, x);
            lemma_code_parts(a, b);
            assert(hside(tris, x).0 != hside(tris, x).1);
        }
    }
    assert(lo.disjoint(hi));
    vstd::set_lib::lemma_set_disjoint_lens(lo, hi);
    // The low codes are the edges.
    assert(lo =~= mesh_edges(tris)) by {
        assert forall|k: u64| lo.contains(k) implies #[trigger] mesh_edges(tris).contains(k) by {
            let x = choose|x: int| 0 <= x < 3 * n && pair_code(hside(tris, x).0 as int, hside(tris, x).1 as int) == k;
            let (a, b) = hside(tris, x);
            lemma_code_parts(a, b);
            assert(edge_key(hside(tris, x)) == k);
        }
        assert forall|k: u64| mesh_edges(tris).contains(k) implies #[trigger] lo.contains(k) by {
            let x = choose|x: int| 0 <= x < 3 * n && edge_key(hside(tris, x)) == k;
            let (a, b) = hside(tris, x);
            assert(a != b);
            if a < b {
                lemma_code_parts(a, b);
            } else {
                assert(!hrepeats(tris, x) && has_half(tris, b, a));
                let y = choose|y: int| 0 <= y < 3 * n && hside(tris, y) == (b, a);
                assert(d.contains(pair_code(hside(tris, y).0 as int, hside(tris, y).1 as int)));
                lemma_code_parts(b, a);
            }
        }
    }
    // The high codes are the low ones reversed.
    let f = |k: u64| code_rev(k);
    let rv = lo.map(f);
    assert(rv =~= hi) by {
        assert forall|k: u64| rv.contains(k) implies #[trigger] hi.contains(k) by {
            let j = choose|j: u64| lo.contains(j) && f(j) == k;
            assert(d.contains(j));
            let x = choose|x: int| 0 <= x < 3 * n && pair_code(hside(tris, x).0 as int, hside(tris, x).1 as int) == j;
            let (a, b) = hside(tris, x);
            lemma_code_parts(a, b);
            assert(!hrepeats(tris, x) && has_half(tris, b, a));
            let y = choose|y: int| 0 <= y < 3 * n && hside(tris, y) == (b, a);
            assert(d.contains(pair_code(hside(tris, y).0 as int, hside(tris, y).1 as int)));
            lemma_code_parts(b, a);
        }
        assert forall|k: u64| hi.contains(k) implies #[trigger] rv.contains(k) by {
            let x = choose|x: int| 0 <= x < 3 * n && pair_code(hside(tris, x).0 as int, hside(tris, x).1 as int) == k;
            let (a, b) = hside(tris, x);
            lemma_code_parts(a, b);
            assert(!hrepeats(tris, x) && has_half(tris, b, a));
            let y = choose|y: int| 0 <= y < 3 * n && hside(tris, y) == (b, a);
            let j = pair_code(b as int, a as int);
            assert(d.contains(pair_code(hside(tris, y).0 as int, hside(tris, y).1 as int)));
            lemma_code_parts(b, a);
            assert(lo.contains(j));
            assert(code_rev(j) == k);
        }
    }
    assert(vstd::relations::injective_on(f, lo)) by {
        assert forall|p: u64, q: u64| lo.contains(p) && lo.contains(q) && #[trigger] f(p) == #[trigger] f(q) implies p == q by {
            let xp = choose|x: int| 0 <= x < 3 * n && pair_code(hside(tris, x).0 as int, hside(tris, x).1 as int) == p;
            let xq = choose|x: int| 0 <= x < 3 * n && pair_code(hside(tris, x).0 as int, hside(tris, x).1 as int) == q;
            lemma_code_parts(hside(tris, xp).0, hside(tris, xp).1);
            lemma_code_parts(hside(tris, xq).0, hside(tris, xq).1);
            lemma_pair_code(hside(tris, xp).1 as int, hside(tris, xp).0 as int, hside(tris, xq).1 as int, hside(tris, xq).0 as int);
        }
    }
    vstd::set_lib::lemma_map_size(lo, hi, f);
}

/// The checks passed up to the faces, which are `faces`, and `absorbed`
/// triangles joined a group.
pub open spec fn faces_found(ind: Seq<u32>, flipped: bool, groups: Seq<i32>, faces: Seq<TopoFace>, absorbed: usize) -> bool {
    let tris = oriented(ind, flipped);
    let n = tris.len() as int;
    let (gid, a) = absorb_all(tris, groups, (n + 1) as nat);
    let fs = faces_upto(twin_graph(tris), gid, face_order(gid), n).1;
    &&& shell_problem(ind, groups.len(), flipped) is None
    &&& ungrouped(groups, n) < n
    &&& fs.len() >= 2
    &&& face_parts(faces) == fs
    &&& faces_split(twin_graph(tris), gid, fs)
    &&& absorbed as nat == a
}

/// Builds the B-Rep topology of a closed triangle mesh `ind` (turned over
/// when `flipped`, the mesh being inside out) and its face groups (one
/// per triangle, negative for none). Refuses, in this order: a mesh
/// that is not a single closed, consistently oriented 2-manifold shell
/// with a face group per triangle; no face groups; a single face; edge
/// chains or face loops that cannot be traced; faces that are no disks
/// with holes.
pub fn build_topology(ind: &[u32], flipped: bool, group_ids: &[i32]) -> (r: Result<MeshTopo, TopoError>)
    requires
        ind@.len() / 3 <= u32::MAX,
    ensures
        shell_problem(ind@, group_ids@.len(), flipped) matches Some(e) ==> r == Err::<MeshTopo, TopoError>(e),
        shell_problem(ind@, group_ids@.len(), flipped) is None ==> {
            let tris = oriented(ind@, flipped);
            let n = tris.len() as int;
            let (gid, absorbed) = absorb_all(tris, group_ids@, (n + 1) as nat);
            let fs = faces_upto(twin_graph(tris), gid, face_order(gid), n).1;
            &&& ungrouped(group_ids@, n) == n ==> r == Err::<MeshTopo, TopoError>(TopoError::NoGroups)
            &&& ungrouped(group_ids@, n) < n ==> faces_split(twin_graph(tris), gid, fs)
            &&& ungrouped(group_ids@, n) < n && fs.len() < 2 ==> r == Err::<MeshTopo, TopoError>(TopoError::SingleFace)
            &&& ungrouped(group_ids@, n) < n && fs.len() >= 2 ==> (r is Ok || (r matches Err(e) && (tracing_error(e)
                || (e matches TopoError::NotDisk(ids) && ids@.len() > 0))))
            &&& r matches Ok(m) ==> {
                &&& ungrouped(group_ids@, n) < n
                &&& fs.len() >= 2
                &&& m.tris@ == tris
                &&& m.flipped == flipped
                &&& m.absorbed == absorbed
                &&& face_parts(m.faces@) == fs
                &&& loops_fit(m.faces@, m.edges@)
                &&& loops_nonempty(m.faces@)
                &&& m.mesh_euler == mesh_euler_of(tris)
                &&& forall|f: int| 0 <= f < m.faces@.len() ==> is_disk(tris, #[trigger] m.faces@[f])
                &&& forall|e: int| 0 <= e < m.edges@.len() ==> (#[trigger] m.edges@[e]).chain@.len() >= 2
                    && (m.edges@[e].start as int) < m.vertices@.len() && (m.edges@[e].end as int) < m.vertices@.len()
                    && m.edges@[e].faces[0] != m.edges@[e].faces[1]
            }
        },
{
    let (tris, half) = match check_shell(ind, group_ids.len(), flipped) {
        Ok(p) => p,
        Err(e) => {
            return Err(e);
        },
    };
    let ghost ts = tris@;
    let n = tris.len();
    let len = ind.len();
    proof {
        assert(3 * n <= len) by (nonlinear_arith)
            requires
                n == len / 3,
        ;
    }
    // No face groups at all.
    let mut grouped = false;
    let mut t: usize = 0;
    while t < n
        invariant
            n == group_ids@.len(),
            t <= n,
            grouped == (ungrouped(group_ids@, t as int) < t),
            ungrouped(group_ids@, t as int) <= t,
        decreases n - t,
    {
        if group_ids[t] >= 0 {
            grouped = true;
        }
        t += 1;
    }
    if !grouped {
        return Err(TopoError::NoGroups);
    }
    let tw = twin_lists(&tris, &half);
    proof {
        assert forall|u: int, e: int| 0 <= u < n && 0 <= e < 3 implies (#[trigger] twin(ts, u, e) as int) < n by {
            lemma_twin(ts, u, e);
        }
        assert forall|u: int| 0 <= u < tw@.len() implies #[trigger] tw@[u]@.len() == 3 by {
            assert(tw@[u]@ == lists(tw@)[u]);
        }
        assert forall|u: int, e: int| 0 <= u < tw@.len() && 0 <= e < 3 implies (#[trigger] tw@[u]@[e] as int) < n by {
            assert(tw@[u]@ == lists(tw@)[u]);
            assert(tw@[u]@[e] == twin(ts, u, e));
        }
    }
    let (gid, absorbed) = absorb_ungrouped(&tris, &tw, group_ids);
    proof {
        lemma_absorb_len(ts, group_ids@, (n + 1) as nat);
        lemma_twin_graph_symmetric(ts);
    }
    let (face_of, mut faces) = find_faces(&tw, &gid);
    proof {
        let fs = faces_upto(lists(tw@), gid@, face_order(gid@), n as int).1;
        assert(face_parts(faces@) =~= fs);
    }
    if faces.len() < 2 {
        return Err(TopoError::SingleFace);
    }
    assert(faces_found(ind@, flipped, group_ids@, faces@, absorbed));
    let (edges, mut vertices) = match edges_and_loops(&tris, &half, &face_of, &mut faces) {
        Ok(p) => p,
        Err(e) => {
            return Err(e);
        },
    };
    assert(faces_found(ind@, flipped, group_ids@, faces@, absorbed));
    // Each face must be a disk with holes.
    let mut bad: Vec<i32> = Vec::new();
    let mut f: usize = 0;
    while f < faces.len()
        invariant
            f <= faces@.len(),
            tris@ == ts,
            faces_found(ind@, flipped, group_ids@, faces@, absorbed),
            bad@.len() == 0 ==> forall|g: int| 0 <= g < f ==> is_disk(tris@, #[trigger] faces@[g]),
        decreases faces@.len() - f,
    {
        match disk_check(&tris, &faces[f]) {
            Some(true) => {},
            Some(false) => {
                bad.push(faces[f].group.wrapping_add(1));
            },
            None => {
                return Err(TopoError::InconsistentLoop);
            },
        }
        f += 1;
    }
    if bad.len() > 0 {
        return Err(TopoError::NotDisk(sorted_unique_ids(&bad)));
    }
    // The faces meeting at each vertex.
    let vl = vertices.len();
    let mut e: usize = 0;
    while e < edges.len()
        invariant
            e <= edges@.len(),
            vertices@.len() == vl,
            forall|x: int| 0 <= x < edges@.len() ==> (#[trigger] edges@[x]).chain@.len() >= 2
                && (edges@[x].start as int) < vertices@.len() && (edges@[x].end as int) < vertices@.len(),
        decreases edges@.len() - e,
    {
        let ends = [edges[e].start, edges[e].end];
        let mut q: usize = 0;
        while q < 2
            invariant
                q <= 2,
                e < edges@.len(),
                vertices@.len() == vl,
                forall|x: int| 0 <= x < edges@.len() ==> (#[trigger] edges@[x]).chain@.len() >= 2
                    && (edges@[x].start as int) < vertices@.len() && (edges@[x].end as int) < vertices@.len(),
                (ends[0] as int) < vertices@.len(),
                (ends[1] as int) < vertices@.len(),
            decreases 2 - q,
        {
            let v = ends[q];
            let mut s: usize = 0;
            while s < 2
                invariant
                    s <= 2,
                    e < edges@.len(),
                    vertices@.len() == vl,
                    (v as int) < vertices@.len(),
                    forall|x: int| 0 <= x < edges@.len() ==> (#[trigger] edges@[x]).chain@.len() >= 2
                        && (edges@[x].start as int) < vertices@.len() && (edges@[x].end as int) < vertices@.len(),
                decreases 2 - s,
            {
                let fc = edges[e].faces[s];
                if !listed(&vertices[v].faces, fc) {
                    let mut tv = TopoVertex { mesh_vertex: 0, faces: Vec::new() };
                    vertices.set_and_swap(v, &mut tv);
                    tv.faces.push(fc);
                    vertices.set_and_swap(v, &mut tv);
                }
                s += 1;
            }
            q += 1;
        }
        e += 1;
    }
    // The Euler characteristic of the mesh.
    let mut used: HashSet<u32> = HashSet::new();
    let mut t: usize = 0;
    assert(used@ =~= verts_upto(tris@, 0));
    while t < n
        invariant
            n == tris@.len(),
            n <= u32::MAX,
            t <= n,
            used@ == verts_upto(tris@, t as int),
            used@.finite(),
            used@.len() <= 3 * t,
        decreases n - t,
    {
        let tri = tris[t];
        let ghost u0 = used@;
        used.insert(tri[0]);
        used.insert(tri[1]);
        used.insert(tri[2]);
        proof {
            assert(used@ == u0.insert(tri[0]).insert(tri[1]).insert(tri[2]));
            assert(used@.len() <= u0.len() + 3);
        }
        t += 1;
        assert(used@ =~= verts_upto(tris@, t as int)) by {
            assert forall|v: u32| #[trigger] used@.contains(v) implies verts_upto(tris@, t as int).contains(v) by {
                if !verts_upto(tris@, t - 1).contains(v) {
                    if v == tri[0] {
                        assert(tris@[t - 1][0] == v);
                    } else if v == tri[1] {
                        assert(tris@[t - 1][1] == v);
                    } else {
                        assert(tris@[t - 1][2] == v);
                    }
                }
            }
            assert forall|v: u32| #[trigger] verts_upto(tris@, t as int).contains(v) implies used@.contains(v) by {
                let (t2, i) = choose|t2: int, i: int| 0 <= t2 < t && 0 <= i < 3 && tris@[t2][i] == v;
                if t2 < t - 1 {
                    assert(verts_upto(tris@, t - 1).contains(v));
                }
            }
        }
    }
    proof {
        lemma_half_count(tris@, half@);
    }
    let mesh_euler: i64 = (used.len() as i128 - (half.len() / 2) as i128 + n as i128) as i64;
    Ok(MeshTopo { faces, edges, vertices, tris, mesh_euler, absorbed, flipped })
}

} // verus!
