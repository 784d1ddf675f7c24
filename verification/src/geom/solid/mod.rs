//! Solids read off closed meshes: the B-Rep topology and its check.
//!
//! The check of a B-Rep: every face bounded by closed loops of edges that
//! lie on its side, every edge used once each way, and the Euler–Poincaré
//! formula V - E + 2F - L = 2 - 2g.
pub mod regularize;
pub mod topo;
use vstd::prelude::*;
use topo::{loops_fit, loops_nonempty, TopoEdge, TopoFace};

verus! {


/// Why a B-Rep fails its check. Groups are numbered from 1.
#[derive(Debug, Clone, Copy, PartialEq, Eq, Structural)]
pub enum ValidateError {
    /// A face of this group has no loop.
    NoBoundary(i32),
    /// A face of this group has an empty loop.
    EmptyLoop(i32),
    /// A loop uses an edge that does not exist.
    MissingEdge,
    /// This edge is used by a face (of this group) that is not on that side.
    WrongFace(usize, i32),
    /// A loop of this group does not close.
    OpenLoop(i32),
    /// This edge is used so many times forwards and backwards.
    UseCount(usize, usize, usize),
    /// V - E + 2F - L, and the genus it disagrees with.
    EulerPoincare(i128, i64),
}

/// Where use `u` of a loop starts and ends.
pub open spec fn use_ends(edges: Seq<TopoEdge>, u: (usize, bool)) -> (usize, usize) {
    if u.1 {
        (edges[u.0 as int].start, edges[u.0 as int].end)
    } else {
        (edges[u.0 as int].end, edges[u.0 as int].start)
    }
}

pub open spec fn group_no(fc: TopoFace) -> i32 {
    if fc.group == i32::MAX { i32::MIN } else { (fc.group + 1) as i32 }
}

/// The error at use `k` of loop `l` of face `f`, if any.
pub open spec fn use_error(faces: Seq<TopoFace>, edges: Seq<TopoEdge>, f: int, l: int, k: int) -> Option<ValidateError> {
    let lp = faces[f].loops@[l]@;
    let (e, fwd) = lp[k];
    if e >= edges.len() {
        Some(ValidateError::MissingEdge)
    } else if edges[e as int].faces[if fwd { 0int } else { 1int }] as int != f {
        Some(ValidateError::WrongFace(e, group_no(faces[f])))
    } else if use_ends(edges, lp[k]).1 != use_ends(edges, lp[(k + 1) % (lp.len() as int)]).0 {
        Some(ValidateError::OpenLoop(group_no(faces[f])))
    } else {
        None
    }
}

/// The first error among the first `k` uses of loop `l` of face `f`.
pub open spec fn uses_error(faces: Seq<TopoFace>, edges: Seq<TopoEdge>, f: int, l: int, k: int) -> Option<ValidateError>
    decreases k,
{
    if k <= 0 {
        None
    } else {
        match uses_error(faces, edges, f, l, k - 1) {
            Some(x) => Some(x),
            None => use_error(faces, edges, f, l, k - 1),
        }
    }
}

/// The first error among the first `l` loops of face `f`.
pub open spec fn loops_error(faces: Seq<TopoFace>, edges: Seq<TopoEdge>, f: int, l: int) -> Option<ValidateError>
    decreases l,
{
    if l <= 0 {
        None
    } else {
        match loops_error(faces, edges, f, l - 1) {
            Some(x) => Some(x),
            None => if faces[f].loops@[l - 1]@.len() == 0 {
                Some(ValidateError::EmptyLoop(group_no(faces[f])))
            } else {
                uses_error(faces, edges, f, l - 1, faces[f].loops@[l - 1]@.len() as int)
            },
        }
    }
}

/// The first error among the first `k` faces.
pub open spec fn faces_error(faces: Seq<TopoFace>, edges: Seq<TopoEdge>, k: int) -> Option<ValidateError>
    decreases k,
{
    if k <= 0 {
        None
    } else {
        match faces_error(faces, edges, k - 1) {
            Some(x) => Some(x),
            None => if faces[k - 1].loops@.len() == 0 {
                Some(ValidateError::NoBoundary(group_no(faces[k - 1])))
            } else {
                loops_error(faces, edges, k - 1, faces[k - 1].loops@.len() as int)
            },
        }
    }
}

/// How many times use `u` occurs in the first `k` uses of a loop.
pub open spec fn count_in(lp: Seq<(usize, bool)>, u: (usize, bool), k: int) -> nat
    decreases k,
{
    if k <= 0 { 0 } else { count_in(lp, u, k - 1) + if lp[k - 1] == u { 1nat } else { 0nat } }
}

pub open spec fn count_loops(fc: TopoFace, u: (usize, bool), l: int) -> nat
    decreases l,
{
    if l <= 0 { 0 } else { count_loops(fc, u, l - 1) + count_in(fc.loops@[l - 1]@, u, fc.loops@[l - 1]@.len() as int) }
}

/// How many times use `u` occurs in the loops of the first `k` faces.
pub open spec fn count_uses(faces: Seq<TopoFace>, u: (usize, bool), k: int) -> nat
    decreases k,
{
    if k <= 0 { 0 } else { count_uses(faces, u, k - 1) + count_loops(faces[k - 1], u, faces[k - 1].loops@.len() as int) }
}

/// The first of the first `k` edges not used exactly once each way.
pub open spec fn bad_use(faces: Seq<TopoFace>, k: int) -> Option<int>
    decreases k,
{
    if k <= 0 {
        None
    } else {
        match bad_use(faces, k - 1) {
            Some(e) => Some(e),
            None => if count_uses(faces, ((k - 1) as usize, true), faces.len() as int) != 1
                || count_uses(faces, ((k - 1) as usize, false), faces.len() as int) != 1 {
                Some(k - 1)
            } else {
                None
            },
        }
    }
}

pub open spec fn loops_total(faces: Seq<TopoFace>, k: int) -> int
    decreases k,
{
    if k <= 0 { 0 } else { loops_total(faces, k - 1) + faces[k - 1].loops@.len() }
}

/// Use `k` of loop `l` of face `f` names an existing edge from the face's
/// side, but the next use of the loop names an edge that does not exist.
pub open spec fn next_missing(faces: Seq<TopoFace>, edges: Seq<TopoEdge>, f: int, l: int, k: int) -> bool {
    let lp = faces[f].loops@[l]@;
    let (e, fwd) = lp[k];
    &&& (e as int) < edges.len()
    &&& edges[e as int].faces[if fwd { 0int } else { 1int }] as int == f
    &&& lp[(k + 1) % (lp.len() as int)].0 >= edges.len()
}

/// The check gets to use `k` of loop `l` of face `f`, with no failure
/// before it, and finds there that the next use names no edge: it cannot
/// go on.
pub open spec fn stops_short(faces: Seq<TopoFace>, edges: Seq<TopoEdge>) -> bool {
    exists|f: int, l: int, k: int| #[trigger] stuck_at(faces, edges, f, l, k)
}

/// The check gets to use `k` of loop `l` of face `f` with no failure before
/// it, and the next use there names no edge.
pub open spec fn stuck_at(faces: Seq<TopoFace>, edges: Seq<TopoEdge>, f: int, l: int, k: int) -> bool {
    0 <= f < faces.len() && 0 <= l < faces[f].loops@.len() && 0 <= k < faces[f].loops@[l]@.len()
        && faces_error(faces, edges, f) is None && loops_error(faces, edges, f, l) is None
        && uses_error(faces, edges, f, l, k) is None && next_missing(faces, edges, f, l, k)
}

/// The number of uses in the first `l` loops of a face.
pub open spec fn loop_uses(fc: TopoFace, l: int) -> nat
    decreases l,
{
    if l <= 0 { 0 } else { loop_uses(fc, l - 1) + fc.loops@[l - 1]@.len() }
}

/// The number of uses in the loops of the first `k` faces.
pub open spec fn uses_total(faces: Seq<TopoFace>, k: int) -> nat
    decreases k,
{
    if k <= 0 { 0 } else { uses_total(faces, k - 1) + loop_uses(faces[k - 1], faces[k - 1].loops@.len() as int) }
}


proof fn lemma_uses_error_stays(faces: Seq<TopoFace>, edges: Seq<TopoEdge>, f: int, l: int, k: int, k2: int)
    requires
        k <= k2,
        uses_error(faces, edges, f, l, k) is Some,
    ensures
        uses_error(faces, edges, f, l, k2) == uses_error(faces, edges, f, l, k),
    decreases k2 - k,
{
    if k < k2 {
        lemma_uses_error_stays(faces, edges, f, l, k, k2 - 1);
    }
}

proof fn lemma_loops_error_stays(faces: Seq<TopoFace>, edges: Seq<TopoEdge>, f: int, l: int, l2: int)
    requires
        l <= l2,
        loops_error(faces, edges, f, l) is Some,
    ensures
        loops_error(faces, edges, f, l2) == loops_error(faces, edges, f, l),
    decreases l2 - l,
{
    if l < l2 {
        lemma_loops_error_stays(faces, edges, f, l, l2 - 1);
    }
}

proof fn lemma_faces_error_stays(faces: Seq<TopoFace>, edges: Seq<TopoEdge>, k: int, k2: int)
    requires
        k <= k2,
        faces_error(faces, edges, k) is Some,
    ensures
        faces_error(faces, edges, k2) == faces_error(faces, edges, k),
    decreases k2 - k,
{
    if k < k2 {
        lemma_faces_error_stays(faces, edges, k, k2 - 1);
    }
}

proof fn lemma_bad_use_stays(faces: Seq<TopoFace>, k: int, k2: int)
    requires
        k <= k2,
        bad_use(faces, k) is Some,
    ensures
        bad_use(faces, k2) == bad_use(faces, k),
    decreases k2 - k,
{
    if k < k2 {
        lemma_bad_use_stays(faces, k, k2 - 1);
    }
}

proof fn lemma_loop_uses_grow(fc: TopoFace, l: int, l2: int)
    requires
        0 <= l <= l2,
    ensures
        loop_uses(fc, l) <= loop_uses(fc, l2),
    decreases l2 - l,
{
    if l < l2 {
        lemma_loop_uses_grow(fc, l, l2 - 1);
    }
}

proof fn lemma_uses_total_grow(faces: Seq<TopoFace>, k: int, k2: int)
    requires
        0 <= k <= k2,
    ensures
        uses_total(faces, k) <= uses_total(faces, k2),
    decreases k2 - k,
{
    if k < k2 {
        lemma_uses_total_grow(faces, k, k2 - 1);
    }
}

/// The number of a face's group as messages give it, counted from 1.
fn group_number(g: i32) -> (r: i32)
    ensures
        r == (if g == i32::MAX { i32::MIN } else { (g + 1) as i32 }),
{
    if g == i32::MAX { i32::MIN } else { g + 1 }
}

/// Checks a B-Rep with `nv` vertices against the genus of the mesh it was
/// read off: every face has loops, every loop is non-empty, uses existing
/// edges on its face's side and closes, every edge is used exactly once
/// forwards and once backwards, and V - E + 2F - L = 2 - 2g. The first
/// failure found, face by face and loop by loop, is returned.
pub fn validate(faces: &Vec<TopoFace>, edges: &Vec<TopoEdge>, nv: usize, genus: i64) -> (r: Result<(), ValidateError>)
    requires
        !stops_short(faces@, edges@),
        uses_total(faces@, faces@.len() as int) <= usize::MAX,
    ensures
        faces_error(faces@, edges@, faces@.len() as int) matches Some(x) ==> r == Err::<(), ValidateError>(x),
        faces_error(faces@, edges@, faces@.len() as int) is None ==> match bad_use(faces@, edges@.len() as int) {
            Some(e) => r == Err::<(), ValidateError>(ValidateError::UseCount(
                e as usize,
                count_uses(faces@, (e as usize, true), faces@.len() as int) as usize,
                count_uses(faces@, (e as usize, false), faces@.len() as int) as usize,
            )),
            None => {
                let x = nv - edges@.len() + 2 * faces@.len() - loops_total(faces@, faces@.len() as int);
                &&& (r is Ok <==> x == 2 - 2 * genus)
                &&& (r is Err ==> r == Err::<(), ValidateError>(ValidateError::EulerPoincare(x as i128, genus)))
            },
        },
{
    let ne = edges.len();
    let nf = faces.len();
    let mut fwd_uses: Vec<usize> = Vec::new();
    let mut bwd_uses: Vec<usize> = Vec::new();
    let mut z: usize = 0;
    while z < ne
        invariant
            z <= ne,
            fwd_uses@.len() == z,
            bwd_uses@.len() == z,
            forall|e: int| 0 <= e < z ==> fwd_uses@[e] == 0 && bwd_uses@[e] == 0,
        decreases ne - z,
    {
        fwd_uses.push(0);
        bwd_uses.push(0);
        z += 1;
    }
    let mut done: usize = 0;
    let mut nloops: usize = 0;
    let mut f: usize = 0;
    while f < nf
        invariant
            nf == faces@.len(),
            ne == edges@.len(),
            f <= nf,
            fwd_uses@.len() == ne,
            bwd_uses@.len() == ne,
            !stops_short(faces@, edges@),
            uses_total(faces@, nf as int) <= usize::MAX,
            faces_error(faces@, edges@, f as int) is None,
            done == uses_total(faces@, f as int),
            nloops == loops_total(faces@, f as int),
            nloops <= done,
            forall|e: int| #![trigger fwd_uses@[e]] #![trigger bwd_uses@[e]] 0 <= e < ne ==> fwd_uses@[e] == count_uses(faces@, (e as usize, true), f as int)
                && bwd_uses@[e] == count_uses(faces@, (e as usize, false), f as int),
            forall|e: int| #![trigger fwd_uses@[e]] #![trigger bwd_uses@[e]] 0 <= e < ne ==> fwd_uses@[e] <= done && bwd_uses@[e] <= done,
        decreases nf - f,
    {
        let fc = &faces[f];
        let nl = fc.loops.len();
        if nl == 0 {
            let g = group_number(fc.group);
            proof {
                lemma_faces_error_stays(faces@, edges@, f + 1, nf as int);
            }
            return Err(ValidateError::NoBoundary(g));
        }
        proof {
            lemma_uses_total_grow(faces@, f + 1, nf as int);
            assert forall|e: int| #![trigger fwd_uses@[e]] #![trigger bwd_uses@[e]] 0 <= e < ne implies fwd_uses@[e] == count_uses(faces@, (e as usize, true), f as int)
                + count_loops(*fc, (e as usize, true), 0)
                && bwd_uses@[e] == count_uses(faces@, (e as usize, false), f as int)
                + count_loops(*fc, (e as usize, false), 0) by {
                assert(count_loops(*fc, (e as usize, true), 0) == 0);
                assert(count_loops(*fc, (e as usize, false), 0) == 0);
            }
        }
        let mut l: usize = 0;
        while l < nl
            invariant
                nf == faces@.len(),
                ne == edges@.len(),
                f < nf,
                *fc == faces@[f as int],
                nl == fc.loops@.len(),
                nl > 0,
                l <= nl,
                fwd_uses@.len() == ne,
                bwd_uses@.len() == ne,
                !stops_short(faces@, edges@),
                uses_total(faces@, f + 1) <= usize::MAX,
                faces_error(faces@, edges@, f as int) is None,
                loops_error(faces@, edges@, f as int, l as int) is None,
                done == uses_total(faces@, f as int) + loop_uses(*fc, l as int),
                nloops == loops_total(faces@, f as int) + l,
                nloops <= done,
                forall|e: int| #![trigger fwd_uses@[e]] #![trigger bwd_uses@[e]] 0 <= e < ne ==> fwd_uses@[e] == count_uses(faces@, (e as usize, true), f as int)
                    + count_loops(*fc, (e as usize, true), l as int)
                    && bwd_uses@[e] == count_uses(faces@, (e as usize, false), f as int)
                    + count_loops(*fc, (e as usize, false), l as int),
                forall|e: int| #![trigger fwd_uses@[e]] #![trigger bwd_uses@[e]] 0 <= e < ne ==> fwd_uses@[e] <= done && bwd_uses@[e] <= done,
            decreases nl - l,
        {
            let lp = &fc.loops[l];
            let len = lp.len();
            if len == 0 {
                let g = group_number(fc.group);
                proof {
                    lemma_loops_error_stays(faces@, edges@, f as int, l + 1, nl as int);
                    lemma_faces_error_stays(faces@, edges@, f + 1, nf as int);
                }
                return Err(ValidateError::EmptyLoop(g));
            }
            proof {
                lemma_loop_uses_grow(*fc, l + 1, nl as int);
            }
            let mut k: usize = 0;
            while k < len
                invariant
                    nf == faces@.len(),
                    ne == edges@.len(),
                    f < nf,
                    *fc == faces@[f as int],
                    nl == fc.loops@.len(),
                    l < nl,
                    lp == fc.loops@[l as int],
                    len == lp@.len(),
                    len > 0,
                    k <= len,
                    !stops_short(faces@, edges@),
                    fwd_uses@.len() == ne,
                    bwd_uses@.len() == ne,
                    uses_total(faces@, f + 1) <= usize::MAX,
                    loop_uses(*fc, l + 1) <= loop_uses(*fc, nl as int),
                    faces_error(faces@, edges@, f as int) is None,
                    loops_error(faces@, edges@, f as int, l as int) is None,
                    uses_error(faces@, edges@, f as int, l as int, k as int) is None,
                    done == uses_total(faces@, f as int) + loop_uses(*fc, l as int) + k,
                    nloops == loops_total(faces@, f as int) + l,
                    nloops <= uses_total(faces@, f as int) + loop_uses(*fc, l as int),
                    forall|e: int| #![trigger fwd_uses@[e]] #![trigger bwd_uses@[e]] 0 <= e < ne ==> fwd_uses@[e] == count_uses(faces@, (e as usize, true), f as int)
                        + count_loops(*fc, (e as usize, true), l as int) + count_in(lp@, (e as usize, true), k as int)
                        && bwd_uses@[e] == count_uses(faces@, (e as usize, false), f as int)
                        + count_loops(*fc, (e as usize, false), l as int) + count_in(lp@, (e as usize, false), k as int),
                    forall|e: int| #![trigger fwd_uses@[e]] #![trigger bwd_uses@[e]] 0 <= e < ne ==> fwd_uses@[e] <= done && bwd_uses@[e] <= done,
                decreases len - k,
            {
                let (e, fwd) = lp[k];
                if e >= ne {
                    proof {
                        lemma_uses_error_stays(faces@, edges@, f as int, l as int, k + 1, len as int);
                        lemma_loops_error_stays(faces@, edges@, f as int, l + 1, nl as int);
                        lemma_faces_error_stays(faces@, edges@, f + 1, nf as int);
                    }
                    return Err(ValidateError::MissingEdge);
                }
                let side: usize = if fwd { 0 } else { 1 };
                if edges[e].faces[side] != f {
                    let g = group_number(fc.group);
                    proof {
                        lemma_uses_error_stays(faces@, edges@, f as int, l as int, k + 1, len as int);
                        lemma_loops_error_stays(faces@, edges@, f as int, l + 1, nl as int);
                        lemma_faces_error_stays(faces@, edges@, f + 1, nf as int);
                    }
                    return Err(ValidateError::WrongFace(e, g));
                }
                proof {
                    assert(loop_uses(*fc, l + 1) == loop_uses(*fc, l as int) + len);
                    assert(uses_total(faces@, f + 1) == uses_total(faces@, f as int) + loop_uses(faces@[f as int], nl as int));
                    assert(done + 1 <= usize::MAX);
                }
                let ghost fw0 = fwd_uses@;
                let ghost bw0 = bwd_uses@;
                if fwd {
                    let c = fwd_uses[e];
                    fwd_uses.set(e, c + 1);
                } else {
                    let c = bwd_uses[e];
                    bwd_uses.set(e, c + 1);
                }
                let ghost old_done = done;
                done = done + 1;
                proof {
                    if lp@[(k + 1) % (len as int)].0 >= ne {
                        assert(stuck_at(faces@, edges@, f as int, l as int, k as int));
                    }
                }
                let (ne2, nfwd) = lp[(k + 1) % len];
                let here_end = if fwd { edges[e].end } else { edges[e].start };
                let next_start = if nfwd { edges[ne2].start } else { edges[ne2].end };
                if here_end != next_start {
                    let g = group_number(fc.group);
                    proof {
                        lemma_uses_error_stays(faces@, edges@, f as int, l as int, k + 1, len as int);
                        lemma_loops_error_stays(faces@, edges@, f as int, l + 1, nl as int);
                        lemma_faces_error_stays(faces@, edges@, f + 1, nf as int);
                    }
                    return Err(ValidateError::OpenLoop(g));
                }
                proof {
                    assert forall|e2: int| #![trigger fwd_uses@[e2]] #![trigger bwd_uses@[e2]] 0 <= e2 < ne implies fwd_uses@[e2] == count_uses(faces@, (e2 as usize, true), f as int)
                        + count_loops(*fc, (e2 as usize, true), l as int) + count_in(lp@, (e2 as usize, true), k + 1)
                        && bwd_uses@[e2] == count_uses(faces@, (e2 as usize, false), f as int)
                        + count_loops(*fc, (e2 as usize, false), l as int) + count_in(lp@, (e2 as usize, false), k + 1) by {
                        assert(count_in(lp@, (e2 as usize, true), k + 1) == count_in(lp@, (e2 as usize, true), k as int)
                            + if lp@[k as int] == (e2 as usize, true) { 1nat } else { 0nat });
                        assert(count_in(lp@, (e2 as usize, false), k + 1) == count_in(lp@, (e2 as usize, false), k as int)
                            + if lp@[k as int] == (e2 as usize, false) { 1nat } else { 0nat });
                        assert(fw0[e2] <= old_done && bw0[e2] <= old_done);
                    }
                    assert(uses_error(faces@, edges@, f as int, l as int, k + 1) is None);
                }
                k += 1;
            }
            proof {
                assert forall|e2: int| #![trigger fwd_uses@[e2]] #![trigger bwd_uses@[e2]] 0 <= e2 < ne implies fwd_uses@[e2] == count_uses(faces@, (e2 as usize, true), f as int)
                    + count_loops(*fc, (e2 as usize, true), l + 1)
                    && bwd_uses@[e2] == count_uses(faces@, (e2 as usize, false), f as int)
                    + count_loops(*fc, (e2 as usize, false), l + 1) by {
                }
                assert(loops_error(faces@, edges@, f as int, l + 1) is None);
            }
            l += 1;
            nloops += 1;
        }
        proof {
            assert forall|e2: int| #![trigger fwd_uses@[e2]] #![trigger bwd_uses@[e2]] 0 <= e2 < ne implies fwd_uses@[e2] == count_uses(faces@, (e2 as usize, true), f + 1)
                && bwd_uses@[e2] == count_uses(faces@, (e2 as usize, false), f + 1) by {
            }
            assert(faces_error(faces@, edges@, f + 1) is None);
        }
        f += 1;
    }
    let mut e: usize = 0;
    while e < ne
        invariant
            nf == faces@.len(),
            ne == edges@.len(),
            e <= ne,
            fwd_uses@.len() == ne,
            bwd_uses@.len() == ne,
            faces_error(faces@, edges@, nf as int) is None,
            bad_use(faces@, e as int) is None,
            forall|e2: int| #![trigger fwd_uses@[e2]] #![trigger bwd_uses@[e2]] 0 <= e2 < ne ==> fwd_uses@[e2] == count_uses(faces@, (e2 as usize, true), nf as int)
                && bwd_uses@[e2] == count_uses(faces@, (e2 as usize, false), nf as int),
        decreases ne - e,
    {
        if fwd_uses[e] != 1 || bwd_uses[e] != 1 {
            proof {
                lemma_bad_use_stays(faces@, e + 1, ne as int);
            }
            return Err(ValidateError::UseCount(e, fwd_uses[e], bwd_uses[e]));
        }
        e += 1;
    }
    let x: i128 = nv as i128 - ne as i128 + 2 * (nf as i128) - nloops as i128;
    if x == 2 - 2 * (genus as i128) {
        Ok(())
    } else {
        Err(ValidateError::EulerPoincare(x, genus))
    }
}

proof fn lemma_fitted_uses(faces: Seq<TopoFace>, edges: Seq<TopoEdge>, f: int, l: int, k: int)
    requires
        loops_fit(faces, edges),
        0 <= f < faces.len(),
        0 <= l < faces[f].loops@.len(),
        k <= faces[f].loops@[l]@.len(),
    ensures
        uses_error(faces, edges, f, l, k) matches Some(x) ==> x is OpenLoop,
    decreases k,
{
    if k > 0 {
        lemma_fitted_uses(faces, edges, f, l, k - 1);
        let u = faces[f].loops@[l]@[k - 1];
        assert(u.0 < edges.len());
    }
}

proof fn lemma_fitted_loops(faces: Seq<TopoFace>, edges: Seq<TopoEdge>, f: int, l: int)
    requires
        loops_fit(faces, edges),
        loops_nonempty(faces),
        0 <= f < faces.len(),
        l <= faces[f].loops@.len(),
    ensures
        loops_error(faces, edges, f, l) matches Some(x) ==> x is OpenLoop,
    decreases l,
{
    if l > 0 {
        lemma_fitted_loops(faces, edges, f, l - 1);
        assert(faces[f].loops@[l - 1]@.len() > 0);
        lemma_fitted_uses(faces, edges, f, l - 1, faces[f].loops@[l - 1]@.len() as int);
    }
}

proof fn lemma_fitted_faces(faces: Seq<TopoFace>, edges: Seq<TopoEdge>, k: int)
    requires
        loops_fit(faces, edges),
        loops_nonempty(faces),
        k <= faces.len(),
    ensures
        faces_error(faces, edges, k) matches Some(x) ==> x is NoBoundary || x is OpenLoop,
    decreases k,
{
    if k > 0 {
        lemma_fitted_faces(faces, edges, k - 1);
        lemma_fitted_loops(faces, edges, k - 1, faces[k - 1].loops@.len() as int);
    }
}

/// Faces whose loops are non-empty and run along existing edges with the
/// face on their side, as those `build_topology` gives, fail the face and
/// loop part of the check only for a face without a loop or a loop that
/// does not close: never for an empty loop, a missing edge or an edge used
/// from the wrong side.
pub proof fn lemma_fitted_loops_check(faces: Seq<TopoFace>, edges: Seq<TopoEdge>)
    requires
        loops_fit(faces, edges),
        loops_nonempty(faces),
    ensures
        faces_error(faces, edges, faces.len() as int) matches Some(x) ==> x is NoBoundary || x is OpenLoop,
{
    lemma_fitted_faces(faces, edges, faces.len() as int);
}

/// Whether `validate` would get to a loop use whose next use names an edge
/// that does not exist, before any failure: then the check cannot go on.
pub fn reaches_missing_edge(faces: &Vec<TopoFace>, edges: &Vec<TopoEdge>) -> (r: bool)
    ensures
        r == stops_short(faces@, edges@),
{
    let ne = edges.len();
    let nf = faces.len();
    let mut f: usize = 0;
    while f < nf
        invariant
            nf == faces@.len(),
            ne == edges@.len(),
            f <= nf,
            faces_error(faces@, edges@, f as int) is None,
            forall|f2: int, l2: int, k2: int| f2 < f ==> !#[trigger] stuck_at(faces@, edges@, f2, l2, k2),
        decreases nf - f,
    {
        let fc = &faces[f];
        let nl = fc.loops.len();
        if nl == 0 {
            proof {
                assert forall|f2: int, l2: int, k2: int| !#[trigger] stuck_at(faces@, edges@, f2, l2, k2) by {
                    if f2 > f && f2 < nf {
                        lemma_faces_error_stays(faces@, edges@, f + 1, f2);
                    }
                }
            }
            return false;
        }
        let mut l: usize = 0;
        while l < nl
            invariant
                nf == faces@.len(),
                ne == edges@.len(),
                f < nf,
                *fc == faces@[f as int],
                nl == fc.loops@.len(),
                l <= nl,
                faces_error(faces@, edges@, f as int) is None,
                loops_error(faces@, edges@, f as int, l as int) is None,
                forall|f2: int, l2: int, k2: int| f2 < f ==> !#[trigger] stuck_at(faces@, edges@, f2, l2, k2),
                forall|l2: int, k2: int| l2 < l ==> !#[trigger] stuck_at(faces@, edges@, f as int, l2, k2),
            decreases nl - l,
        {
            let lp = &fc.loops[l];
            let len = lp.len();
            if len == 0 {
                proof {
                    assert forall|f2: int, l2: int, k2: int| !#[trigger] stuck_at(faces@, edges@, f2, l2, k2) by {
                        if f2 > f && f2 < nf {
                            lemma_loops_error_stays(faces@, edges@, f as int, l + 1, nl as int);
                            lemma_faces_error_stays(faces@, edges@, f + 1, f2);
                        } else if f2 == f && l2 > l && l2 < nl {
                            lemma_loops_error_stays(faces@, edges@, f as int, l + 1, l2);
                        }
                    }
                }
                return false;
            }
            let mut k: usize = 0;
            while k < len
                invariant
                    nf == faces@.len(),
                    ne == edges@.len(),
                    f < nf,
                    *fc == faces@[f as int],
                    nl == fc.loops@.len(),
                    l < nl,
                    *lp == fc.loops@[l as int],
                    len == lp@.len(),
                    len > 0,
                    k <= len,
                    faces_error(faces@, edges@, f as int) is None,
                    loops_error(faces@, edges@, f as int, l as int) is None,
                    uses_error(faces@, edges@, f as int, l as int, k as int) is None,
                    forall|f2: int, l2: int, k2: int| f2 < f ==> !#[trigger] stuck_at(faces@, edges@, f2, l2, k2),
                    forall|l2: int, k2: int| l2 < l ==> !#[trigger] stuck_at(faces@, edges@, f as int, l2, k2),
                    forall|k2: int| k2 < k ==> !#[trigger] stuck_at(faces@, edges@, f as int, l as int, k2),
                decreases len - k,
            {
                let (e, fwd) = lp[k];
                let side: usize = if fwd { 0 } else { 1 };
                let ok_here = e < ne && edges[e].faces[side] == f;
                let (e2, nfwd) = lp[(k + 1) % len];
                if ok_here && e2 >= ne {
                    proof {
                        assert(stuck_at(faces@, edges@, f as int, l as int, k as int));
                    }
                    return true;
                }
                let closes = ok_here && {
                    let here_end = if fwd { edges[e].end } else { edges[e].start };
                    let next_start = if nfwd { edges[e2].start } else { edges[e2].end };
                    here_end == next_start
                };
                if !closes {
                    proof {
                        assert(uses_error(faces@, edges@, f as int, l as int, k + 1) is Some);
                        assert forall|f2: int, l2: int, k2: int| !#[trigger] stuck_at(faces@, edges@, f2, l2, k2) by {
                            if f2 > f && f2 < nf {
                                lemma_uses_error_stays(faces@, edges@, f as int, l as int, k + 1, len as int);
                                lemma_loops_error_stays(faces@, edges@, f as int, l + 1, nl as int);
                                lemma_faces_error_stays(faces@, edges@, f + 1, f2);
                            } else if f2 == f && l2 > l && l2 < nl {
                                lemma_uses_error_stays(faces@, edges@, f as int, l as int, k + 1, len as int);
                                lemma_loops_error_stays(faces@, edges@, f as int, l + 1, l2);
                            } else if f2 == f && l2 == l && k2 > k && k2 < len {
                                lemma_uses_error_stays(faces@, edges@, f as int, l as int, k + 1, k2);
                            }
                        }
                    }
                    return false;
                }
                k += 1;
            }
            l += 1;
        }
        f += 1;
    }
    proof {
        assert forall|f2: int, l2: int, k2: int| !#[trigger] stuck_at(faces@, edges@, f2, l2, k2) by {}
    }
    false
}

} // verus!
