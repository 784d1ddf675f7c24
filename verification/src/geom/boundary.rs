//! Open boundary edges of a triangle mesh (edges of exactly one triangle),
//! and the mask of the triangles near them.
use vstd::prelude::*;
use crate::sorting::{key_count, lemma_block_count, lemma_perm_filter_len, par_sort_by_key, sorted_by_key, with_key};

verus! {

broadcast use vstd::seq_lib::group_to_multiset_ensures;

/// An undirected edge: its two vertices, smaller first.
#[derive(Clone, Copy, PartialEq, Eq, PartialOrd, Ord, Hash, Debug)]
pub struct EdgeKey(pub u32, pub u32);

/// The number that orders edge keys as `(smaller, larger)` pairs do.
pub open spec fn key_code(a: u32, b: u32) -> u64 {
    if a < b {
        (a as int * 0x1_0000_0000 + b as int) as u64
    } else {
        (b as int * 0x1_0000_0000 + a as int) as u64
    }
}

/// The key of the edge between `u` and `v`: the smaller vertex first.
pub open spec fn edge_key(u: u32, v: u32) -> EdgeKey {
    if u < v {
        EdgeKey(u, v)
    } else {
        EdgeKey(v, u)
    }
}

/// An edge has the same key in both directions.
pub proof fn lemma_edge_key_symmetric(u: u32, v: u32)
    ensures
        edge_key(u, v) == edge_key(v, u),
        key_code(u, v) == key_code(v, u),
{
}

impl EdgeKey {
    /// The key of the edge between `u` and `v`, in either direction.
    pub fn new(u: u32, v: u32) -> (r: Self)
        ensures
            r == edge_key(u, v),
            r.0 <= r.1,
            (r.0 == u && r.1 == v) || (r.0 == v && r.1 == u),
    {
        if u < v {
            EdgeKey(u, v)
        } else {
            EdgeKey(v, u)
        }
    }
}

pub(crate) fn key_code_exec(a: u32, b: u32) -> (r: u64)
    ensures
        r == key_code(a, b),
{
    let (lo, hi) = if a < b {
        (a, b)
    } else {
        (b, a)
    };
    assert(lo as int * 0x1_0000_0000 + hi as int <= u64::MAX) by (nonlinear_arith)
        requires
            lo <= u32::MAX,
            hi <= u32::MAX,
    ;
    lo as u64 * 0x1_0000_0000 + hi as u64
}

/// A boundary edge: its key, its direction in the triangle that has it,
/// and that triangle.
#[derive(Clone, Copy, Debug)]
pub struct BoundaryEdge {
    pub key: EdgeKey,
    pub directed: (u32, u32),
    pub triangle: u32,
}

/// A directed edge of a triangle as a sortable record: key, direction,
/// triangle.
pub type EdgeRecord = (u64, ((u32, u32), u32));

impl BoundaryEdge {
    pub open spec fn record(self) -> EdgeRecord {
        (key_code(self.directed.0, self.directed.1), (self.directed, self.triangle))
    }
}

/// Edge `e` (0, 1, 2) of triangle `t`, in the triangle's direction.
pub open spec fn tri_edge(ind: Seq<u32>, t: int, e: int) -> (u32, u32) {
    (ind[3 * t + e], ind[3 * t + (e + 1) % 3])
}

/// The directed edges of all triangles, three per triangle in order.
pub open spec fn edge_records(ind: Seq<u32>) -> Seq<EdgeRecord> {
    Seq::new(
        (3 * (ind.len() / 3)) as nat,
        |x: int|
            {
                let d = tri_edge(ind, x / 3, x % 3);
                (key_code(d.0, d.1), (d, (x / 3) as u32))
            },
    )
}

fn push_edge(raw: &mut Vec<EdgeRecord>, a: u32, b: u32, t: u32)
    ensures
        final(raw)@ == old(raw)@.push((key_code(a, b), ((a, b), t))),
{
    let k = key_code_exec(a, b);
    raw.push((k, ((a, b), t)));
}

/// The directed edges of all triangles, in order.
pub(crate) fn collect_edges(indices: &[u32]) -> (raw: Vec<EdgeRecord>)
    ensures
        raw@ == edge_records(indices@),
{
    let len = indices.len();
    let nt = len / 3;
    let ghost all = edge_records(indices@);
    let mut raw: Vec<EdgeRecord> = Vec::new();
    let mut t: usize = 0;
    while t < nt
        invariant
            len == indices@.len(),
            t <= nt,
            nt == indices@.len() / 3,
            all == edge_records(indices@),
            raw@ == all.take(3 * t),
        decreases nt - t,
    {
        assert(3 * t + 2 < indices@.len()) by (nonlinear_arith)
            requires
                t < nt,
                nt == indices@.len() / 3,
        ;
        assert(3 * t < indices@.len());
        let b = 3 * t;
        let i0 = indices[b];
        let i1 = indices[b + 1];
        let i2 = indices[b + 2];
        let tt = #[verifier::truncate] (t as u32);
        push_edge(&mut raw, i0, i1, tt);
        push_edge(&mut raw, i1, i2, tt);
        push_edge(&mut raw, i2, i0, tt);
        proof {
            assert forall|x: int| 3 * t <= x < 3 * t + 3 implies x / 3 == t && #[trigger] (x % 3) == x - 3 * t by {
            }
            assert(raw@ =~= all.take(3 * t + 3));
        }
        t += 1;
    }
    assert(all.take(3 * nt) =~= all);
    raw
}

/// `r` holds exactly the edge records that are alone with their key, in
/// increasing order of key.
pub open spec fn is_boundary_of(r: Seq<BoundaryEdge>, raw: Seq<EdgeRecord>) -> bool {
    &&& forall|i: int| #![trigger r[i]] 0 <= i < r.len() ==> r[i].key.0 <= r[i].key.1
        && key_code(r[i].key.0, r[i].key.1) == r[i].record().0
    &&& forall|i: int, j: int| 0 <= i < j < r.len() ==> (#[trigger] r[i]).record().0 < (#[trigger] r[j]).record().0
    &&& forall|i: int| #![trigger r[i]] 0 <= i < r.len() ==> raw.contains(r[i].record())
        && key_count(raw, r[i].record().0) == 1
    &&& forall|x: int| #![trigger raw[x]] 0 <= x < raw.len() && key_count(raw, raw[x].0) == 1
        ==> exists|i: int| 0 <= i < r.len() && (#[trigger] r[i]).record() == raw[x]
}

/// The boundary edges of the triangles `ind`, ordered by key.
pub open spec fn boundary_edges(ind: Seq<u32>) -> Seq<BoundaryEdge> {
    choose|r: Seq<BoundaryEdge>| is_boundary_of(r, edge_records(ind))
}

/// A boundary edge is given by its record.
proof fn lemma_record_determines(a: BoundaryEdge, b: BoundaryEdge)
    requires
        a.record() == b.record(),
        a.key.0 <= a.key.1 && key_code(a.key.0, a.key.1) == a.record().0,
        b.key.0 <= b.key.1 && key_code(b.key.0, b.key.1) == b.record().0,
    ensures
        a == b,
{
    let EdgeKey(p, q) = a.key;
    let EdgeKey(x, y) = b.key;
    assert(p as int * 0x1_0000_0000 + q as int == x as int * 0x1_0000_0000 + y as int) by {
        assert(p as int * 0x1_0000_0000 + q as int <= u64::MAX) by (nonlinear_arith)
            requires
                p <= u32::MAX,
                q <= u32::MAX,
        ;
        assert(x as int * 0x1_0000_0000 + y as int <= u64::MAX) by (nonlinear_arith)
            requires
                x <= u32::MAX,
                y <= u32::MAX,
        ;
    }
    assert(p == x && q == y) by (nonlinear_arith)
        requires
            p as int * 0x1_0000_0000 + q as int == x as int * 0x1_0000_0000 + y as int,
            p <= u32::MAX,
            q <= u32::MAX,
            x <= u32::MAX,
            y <= u32::MAX,
    ;
}

/// Every record of `a` is a record of `b`.
pub open spec fn covers(a: Seq<BoundaryEdge>, b: Seq<BoundaryEdge>) -> bool {
    forall|i: int| #![trigger a[i]] 0 <= i < a.len() ==> records(b).contains(a[i].record())
}

pub open spec fn records(b: Seq<BoundaryEdge>) -> Seq<EdgeRecord> {
    b.map_values(|e: BoundaryEdge| e.record())
}

/// Each list holds the records of the other.
pub open spec fn same_records(r1: Seq<BoundaryEdge>, r2: Seq<BoundaryEdge>) -> bool {
    covers(r1, r2) && covers(r2, r1)
}

/// Keys normalised and strictly increasing.
pub open spec fn key_sorted(r: Seq<BoundaryEdge>) -> bool {
    &&& forall|i: int| #![trigger r[i]] 0 <= i < r.len() ==> r[i].key.0 <= r[i].key.1
        && key_code(r[i].key.0, r[i].key.1) == r[i].record().0
    &&& forall|i: int, j: int| 0 <= i < j < r.len() ==> (#[trigger] r[i]).record().0 < (#[trigger] r[j]).record().0
}

/// There is one list of boundary edges.
#[verifier::rlimit(50)]
proof fn lemma_boundary_unique(r1: Seq<BoundaryEdge>, r2: Seq<BoundaryEdge>, raw: Seq<EdgeRecord>)
    requires
        is_boundary_of(r1, raw),
        is_boundary_of(r2, raw),
    ensures
        r1 == r2,
{
    assert forall|i: int| #![trigger r1[i]] 0 <= i < r1.len() implies records(r2).contains(r1[i].record()) by {
        assert(raw.contains(r1[i].record()));
        let x = choose|x: int| 0 <= x < raw.len() && raw[x] == r1[i].record();
        assert(raw[x] == r1[i].record());
        let j = choose|j: int| 0 <= j < r2.len() && (#[trigger] r2[j]).record() == raw[x];
        assert(records(r2)[j] == r1[i].record());
    }
    assert forall|j: int| #![trigger r2[j]] 0 <= j < r2.len() implies records(r1).contains(r2[j].record()) by {
        assert(raw.contains(r2[j].record()));
        let x = choose|x: int| 0 <= x < raw.len() && raw[x] == r2[j].record();
        assert(raw[x] == r2[j].record());
        let i = choose|i: int| 0 <= i < r1.len() && (#[trigger] r1[i]).record() == raw[x];
        assert(records(r1)[i] == r2[j].record());
    }
    assert(covers(r1, r2));
    assert(covers(r2, r1));
    lemma_sorted_same(r1, r2);
    assert(r1 =~= r2);
}

proof fn lemma_first_same(r1: Seq<BoundaryEdge>, r2: Seq<BoundaryEdge>)
    requires
        key_sorted(r1),
        key_sorted(r2),
        same_records(r1, r2),
        r1.len() > 0,
    ensures
        r2.len() > 0,
        r1[0] == r2[0],
{
    assert(records(r2).contains(r1[0].record()));
    let j0 = choose|j: int| 0 <= j < records(r2).len() && records(r2)[j] == r1[0].record();
    assert(r2[j0].record() == r1[0].record());
    if r2.len() > 0 {
        assert(records(r1).contains(r2[0].record()));
    }
    let i0 = choose|i: int| 0 <= i < records(r1).len() && records(r1)[i] == r2[0].record();
    assert(r1[i0].record() == r2[0].record());
    if j0 > 0 {
        assert(r2[0].record().0 < r2[j0].record().0);
        if i0 > 0 {
            assert(r1[0].record().0 < r1[i0].record().0);
        }
        assert(false);
    }
    lemma_record_determines(r1[0], r2[0]);
}

#[verifier::rlimit(50)]
proof fn lemma_rest_one_way(r1: Seq<BoundaryEdge>, r2: Seq<BoundaryEdge>)
    requires
        forall|i: int, j: int| 0 <= i < j < r1.len() ==> (#[trigger] r1[i]).record().0 < (#[trigger] r1[j]).record().0,
        covers(r1, r2),
        r1.len() > 0,
        r2.len() > 0,
        r1[0] == r2[0],
    ensures
        covers(r1.drop_first(), r2.drop_first()),
{
    let s1 = r1.drop_first();
    let s2 = r2.drop_first();
    assert forall|i: int| #![trigger s1[i]] 0 <= i < s1.len() implies records(s2).contains(s1[i].record()) by {
        assert(r1[i + 1] == s1[i]);
        assert(records(r2).contains(r1[i + 1].record()));
        let j = choose|j: int| 0 <= j < records(r2).len() && records(r2)[j] == r1[i + 1].record();
        assert(r2[j].record() == r1[i + 1].record());
        assert(r1[0].record().0 < r1[i + 1].record().0);
        assert(j != 0);
        assert(s2[j - 1] == r2[j]);
        assert(records(s2)[j - 1] == s1[i].record());
    }
    assert(covers(s1, s2));
}

proof fn lemma_rest_sorted(r: Seq<BoundaryEdge>)
    requires
        key_sorted(r),
        r.len() > 0,
    ensures
        key_sorted(r.drop_first()),
{
    let s = r.drop_first();
    assert forall|i: int, j: int| 0 <= i < j < s.len() implies (#[trigger] s[i]).record().0 < (#[trigger] s[j]).record().0 by {
        assert(s[i] == r[i + 1] && s[j] == r[j + 1]);
    }
}

#[verifier::rlimit(50)]
proof fn lemma_rest_same(r1: Seq<BoundaryEdge>, r2: Seq<BoundaryEdge>)
    requires
        key_sorted(r1),
        key_sorted(r2),
        same_records(r1, r2),
        r1.len() > 0,
        r2.len() > 0,
        r1[0] == r2[0],
    ensures
        key_sorted(r1.drop_first()),
        key_sorted(r2.drop_first()),
        same_records(r1.drop_first(), r2.drop_first()),
{
    lemma_rest_one_way(r1, r2);
    lemma_rest_one_way(r2, r1);
    lemma_rest_sorted(r1);
    lemma_rest_sorted(r2);
}

/// Two lists strictly increasing by key, each holding the records of the
/// other, are equal.
#[verifier::rlimit(50)]
proof fn lemma_sorted_same(r1: Seq<BoundaryEdge>, r2: Seq<BoundaryEdge>)
    requires
        key_sorted(r1),
        key_sorted(r2),
        same_records(r1, r2),
    ensures
        r1 == r2,
    decreases r1.len(),
{
    if r1.len() == 0 {
        if r2.len() > 0 {
            assert(records(r1).contains(r2[0].record()));
        }
        assert(r1 =~= r2);
    } else {
        lemma_first_same(r1, r2);
        lemma_rest_same(r1, r2);
        lemma_sorted_same(r1.drop_first(), r2.drop_first());
        assert(r1 =~= seq![r1[0]] + r1.drop_first());
        assert(r2 =~= seq![r2[0]] + r2.drop_first());
    }
}

proof fn lemma_key_code_sym(a: u32, b: u32)
    ensures
        key_code(a, b) == key_code(b, a),
{
}

/// The key of a record is the code of its edge.
pub open spec fn well_keyed(e: EdgeRecord) -> bool {
    e.0 == key_code(e.1.0.0, e.1.0.1)
}

proof fn lemma_records_well_keyed(ind: Seq<u32>, s: Seq<EdgeRecord>)
    requires
        s.to_multiset() == edge_records(ind).to_multiset(),
    ensures
        forall|x: int| 0 <= x < s.len() ==> well_keyed(#[trigger] s[x]),
{
    let all = edge_records(ind);
    assert forall|x: int| 0 <= x < s.len() implies well_keyed(#[trigger] s[x]) by {
        assert(s.contains(s[x]));
        assert(all.to_multiset().count(s[x]) > 0);
        assert(all.contains(s[x]));
        let y = choose|y: int| 0 <= y < all.len() && all[y] == s[x];
    }
}

/// Finds all open boundary edges of a triangle mesh (edges incident to exactly
/// one triangle), ordered by key.
pub fn find_boundary_edges(indices: &[u32]) -> (r: Vec<BoundaryEdge>)
    ensures
        is_boundary_of(r@, edge_records(indices@)),
        r@ == boundary_edges(indices@),
{
    let ghost all = edge_records(indices@);
    let mut raw = collect_edges(indices);
    par_sort_by_key(&mut raw);
    let ghost s = raw@;
    proof {
        lemma_records_well_keyed(indices@, s);
    }
    let n = raw.len();
    let mut out: Vec<BoundaryEdge> = Vec::new();
    let ghost mut pos: Seq<int> = seq![];
    let mut i: usize = 0;
    while i < n
        invariant
            n == raw@.len(),
            s == raw@,
            sorted_by_key(s),
            forall|x: int| 0 <= x < s.len() ==> well_keyed(#[trigger] s[x]),
            i <= n,
            0 < i < n ==> s[i - 1].0 != s[i as int].0,
            pos.len() == out@.len(),
            forall|m: int| #![trigger out@[m]] 0 <= m < out@.len() ==> out@[m].key.0 <= out@[m].key.1
                && key_code(out@[m].key.0, out@[m].key.1) == out@[m].record().0,
            forall|m: int, q: int| 0 <= m < q < out@.len() ==> (#[trigger] out@[m]).record().0 < (#[trigger] out@[q]).record().0,
            forall|m: int| #![trigger out@[m]] 0 <= m < out@.len() && i < n ==> out@[m].record().0 < s[i as int].0,
            forall|m: int| #![trigger pos[m]] 0 <= m < out@.len() ==> 0 <= pos[m] < i && s[pos[m]] == out@[m].record()
                && key_count(s, s[pos[m]].0) == 1,
            forall|g: int| #![trigger s[g]] 0 <= g < i && key_count(s, s[g].0) == 1 ==> exists|m: int|
                0 <= m < out@.len() && (#[trigger] out@[m]).record() == s[g],
        decreases n - i,
    {
        let k = raw[i].0;
        let mut j = i + 1;
        while j < n && raw[j].0 == k
            invariant
                i < j <= n,
                n == raw@.len(),
                k == s[i as int].0,
                s == raw@,
                forall|x: int| i <= x < j ==> (#[trigger] s[x]).0 == k,
            decreases n - j,
        {
            j += 1;
        }
        proof {
            lemma_block_count(s, i as int, j as int, k);
            if j < n {
                assert(s[i as int].0 <= s[j as int].0);
            }
        }
        let ghost old_out = out@;
        if j - i == 1 {
            let (code, (d, t)) = raw[i];
            let key = EdgeKey::new(d.0, d.1);
            let e = BoundaryEdge { key, directed: d, triangle: t };
            proof {
                lemma_key_code_sym(d.0, d.1);
                assert(well_keyed(s[i as int]));
                assert(e.record() == s[i as int]);
                pos = pos.push(i as int);
            }
            out.push(e);
            assert(out@[out@.len() - 1] == e);
        }
        proof {
            assert forall|g: int| #![trigger s[g]] 0 <= g < j && key_count(s, s[g].0) == 1 implies exists|m: int|
                0 <= m < out@.len() && (#[trigger] out@[m]).record() == s[g] by {
                if g >= i {
                    assert(s[g].0 == k);
                    assert(out@[out@.len() - 1].record() == s[g]);
                } else {
                    let m = choose|m: int| 0 <= m < old_out.len() && (#[trigger] old_out[m]).record() == s[g];
                    assert(out@[m] == old_out[m]);
                }
            }
        }
        i = j;
    }
    proof {
        assert forall|key: u64| key_count(s, key) == key_count(all, key) by {
            lemma_perm_filter_len(s, all, with_key::<((u32, u32), u32)>(key));
        }
        assert forall|i: int| #![trigger out@[i]] 0 <= i < out@.len() implies all.contains(out@[i].record())
            && key_count(all, out@[i].record().0) == 1 by {
            let g = pos[i];
            assert(s.contains(s[g]));
            assert(all.to_multiset().count(s[g]) > 0);
        }
        assert forall|x: int| #![trigger all[x]] 0 <= x < all.len() && key_count(all, all[x].0) == 1
            implies exists|i: int| 0 <= i < out@.len() && (#[trigger] out@[i]).record() == all[x] by {
            assert(all.contains(all[x]));
            assert(s.to_multiset().count(all[x]) > 0);
            let g = choose|g: int| 0 <= g < s.len() && s[g] == all[x];
            assert(s[g] == all[x]);
        }
        assert(is_boundary_of(out@, all));
        lemma_boundary_unique(out@, boundary_edges(indices@), all);
    }
    out
}

// ---------------------------------------------------------------------------
// Mask of the triangles near the boundary
// ---------------------------------------------------------------------------

/// Record `x` of `raw` is the only one with its key: an open edge.
pub open spec fn is_open(raw: Seq<EdgeRecord>, x: int) -> bool {
    0 <= x < raw.len() && key_count(raw, raw[x].0) == 1
}

/// Vertex `v` ends an open edge.
pub open spec fn on_boundary(ind: Seq<u32>, v: int) -> bool {
    let raw = edge_records(ind);
    exists|x: int| is_open(raw, x) && (raw[x].1.0.0 == v || raw[x].1.0.1 == v)
}

/// Triangle `t` has an open edge.
pub open spec fn has_open_edge(ind: Seq<u32>, t: int) -> bool {
    let raw = edge_records(ind);
    exists|x: int| is_open(raw, x) && raw[x].1.1 as int == t
}

/// Vertex `v` is a corner of triangle `t`.
pub open spec fn corner_of(ind: Seq<u32>, t: int, v: int) -> bool {
    ind[3 * t] == v || ind[3 * t + 1] == v || ind[3 * t + 2] == v
}

/// Triangle `t` has a corner marked in `active`.
pub open spec fn touches(ind: Seq<u32>, t: int, active: Seq<bool>) -> bool {
    active[ind[3 * t] as int] || active[ind[3 * t + 1] as int] || active[ind[3 * t + 2] as int]
}

/// The corners of the triangles that touch `active`.
pub open spec fn ring(ind: Seq<u32>, nv: nat, active: Seq<bool>) -> Seq<bool> {
    Seq::new(nv, |v: int| exists|t: int| 0 <= t < ind.len() / 3 && touches(ind, t, active) && corner_of(ind, t, v))
}

/// The boundary vertices grown by `r` rings.
pub open spec fn dilated(ind: Seq<u32>, nv: nat, r: nat) -> Seq<bool>
    decreases r,
{
    if r == 0 {
        Seq::new(nv, |v: int| on_boundary(ind, v))
    } else {
        ring(ind, nv, dilated(ind, nv, (r - 1) as nat))
    }
}

/// The triangles touching the boundary vertices grown by fewer than
/// `rings` rings.
pub open spec fn dilation_mask(ind: Seq<u32>, nv: nat, rings: nat) -> Seq<bool> {
    Seq::new(ind.len() / 3, |t: int| exists|r: nat| r < rings && #[trigger] touches(ind, t, dilated(ind, nv, r)))
}

pub open spec fn count_true(s: Seq<bool>) -> nat
    decreases s.len(),
{
    if s.len() == 0 {
        0
    } else {
        count_true(s.drop_last()) + if s.last() {
            1nat
        } else {
            0nat
        }
    }
}

pub open spec fn as_bytes(s: Seq<bool>) -> Seq<u8> {
    s.map_values(|b: bool| if b {
        1u8
    } else {
        0u8
    })
}

/// The triangles excluded around holes and open boundaries (1) and kept (0):
/// those touching the boundary vertices grown by `dilation_rings` rings (at
/// least one); when that is more than four tenths of the triangles, only the
/// triangles that have an open edge.
pub open spec fn hole_mask(ind: Seq<u32>, nv: nat, dilation_rings: nat) -> Seq<u8> {
    let nt = ind.len() / 3;
    let raw = edge_records(ind);
    if nt == 0 || nv == 0 {
        seq![]
    } else if !exists|x: int| is_open(raw, x) {
        Seq::new(nt, |t: int| 0u8)
    } else {
        let rings = if dilation_rings == 0 {
            1
        } else {
            dilation_rings
        };
        let m = dilation_mask(ind, nv, rings);
        if count_true(m) > (nt * 4) / 10 {
            as_bytes(Seq::new(nt, |t: int| has_open_edge(ind, t)))
        } else {
            as_bytes(m)
        }
    }
}

proof fn lemma_open_record(r: Seq<BoundaryEdge>, raw: Seq<EdgeRecord>, x: int)
    requires
        is_boundary_of(r, raw),
        is_open(raw, x),
    ensures
        exists|i: int| 0 <= i < r.len() && (#[trigger] r[i]).record() == raw[x],
{
    assert(key_count(raw, raw[x].0) == 1);
}

/// Generates a triangle exclusion mask for all holes and open boundaries with
/// k-ring dilation. Triangles marked with 1 are excluded; triangles with 0 are
/// kept.
pub fn generate_hole_mask(indices: &[u32], nv: usize, dilation_rings: usize) -> (r: Vec<u8>)
    requires
        forall|k: int| 0 <= k < indices@.len() ==> (#[trigger] indices@[k]) < nv,
    ensures
        r@ == hole_mask(indices@, nv as nat, dilation_rings as nat),
{
    let ghost ind = indices@;
    let ghost raw = edge_records(ind);
    let len = indices.len();
    let nt = len / 3;
    if nt == 0 || nv == 0 {
        return Vec::new();
    }
    let b_edges = find_boundary_edges(indices);
    if b_edges.len() == 0 {
        proof {
            assert forall|x: int| !is_open(raw, x) by {
                if is_open(raw, x) {
                    lemma_open_record(b_edges@, raw, x);
                }
            }
        }
        let z = vec_of(nt, 0u8);
        assert(z@ =~= Seq::new(nt as nat, |t: int| 0u8));
        return z;
    }
    proof {
        assert(is_open(raw, pos_of(b_edges@, raw)));
    }
    // The boundary vertices.
    let mut active = vec_of(nv, false);
    let mut bi: usize = 0;
    while bi < b_edges.len()
        invariant
            bi <= b_edges@.len(),
            is_boundary_of(b_edges@, raw),
            raw == edge_records(ind),
            ind == indices@,
            active@.len() == nv,
            forall|k: int| 0 <= k < ind.len() ==> (#[trigger] ind[k]) < nv,
            forall|v: int| 0 <= v < nv ==> (#[trigger] active@[v] <==> exists|i: int| 0 <= i < bi
                && ((#[trigger] b_edges@[i]).directed.0 == v || b_edges@[i].directed.1 == v)),
        decreases b_edges@.len() - bi,
    {
        let d = b_edges[bi].directed;
        proof {
            let x = choose|x: int| 0 <= x < raw.len() && raw[x] == b_edges@[bi as int].record();
            assert(raw.contains(b_edges@[bi as int].record()));
            let y = choose|y: int| 0 <= y < raw.len() && raw[y] == b_edges@[bi as int].record();
            lemma_record_vertices(ind, y);
        }
        active.set(d.0 as usize, true);
        active.set(d.1 as usize, true);
        bi += 1;
    }
    proof {
        assert forall|v: int| 0 <= v < nv implies active@[v] == on_boundary(ind, v) by {
            if active@[v] {
                let i = choose|i: int| 0 <= i < b_edges@.len()
                    && ((#[trigger] b_edges@[i]).directed.0 == v || b_edges@[i].directed.1 == v);
                assert(raw.contains(b_edges@[i].record()));
                let y = choose|y: int| 0 <= y < raw.len() && raw[y] == b_edges@[i].record();
                assert(is_open(raw, y));
            }
            if on_boundary(ind, v) {
                let x = choose|x: int| is_open(raw, x) && (raw[x].1.0.0 == v || raw[x].1.0.1 == v);
                lemma_open_record(b_edges@, raw, x);
                let i = choose|i: int| 0 <= i < b_edges@.len() && (#[trigger] b_edges@[i]).record() == raw[x];
                assert(b_edges@[i].directed == raw[x].1.0);
            }
        }
        assert(active@ =~= dilated(ind, nv as nat, 0));
    }
    // Grow the boundary ring by ring, masking the triangles touched.
    let rings = if dilation_rings == 0 {
        1
    } else {
        dilation_rings
    };
    let mut mask = vec_of(nt, false);
    let mut r: usize = 0;
    while r < rings
        invariant
            r <= rings,
            ind == indices@,
            len == ind.len(),
            nt == ind.len() / 3,
            active@ == dilated(ind, nv as nat, r as nat),
            mask@.len() == nt,
            forall|k: int| 0 <= k < ind.len() ==> (#[trigger] ind[k]) < nv,
            forall|t: int| 0 <= t < nt ==> (#[trigger] mask@[t] <==> exists|q: nat| q < r
                && #[trigger] touches(ind, t, dilated(ind, nv as nat, q))),
        decreases rings - r,
    {
        let (m2, next) = grow_ring(indices, nv, &active, mask, Ghost(r as nat));
        mask = m2;
        active = next;
        r += 1;
        assert(active@ == dilated(ind, nv as nat, r as nat));
    }
    assert(mask@ =~= dilation_mask(ind, nv as nat, rings as nat));
    let masked = count_trues(&mask);
    let limit = (nt / 10) * 4 + ((nt % 10) * 4) / 10;
    assert(limit == (nt * 4) / 10) by (nonlinear_arith)
        requires
            limit == (nt / 10) * 4 + ((nt % 10) * 4) / 10,
    ;
    if masked > limit {
        let mut fb = vec_of(nt, 0u8);
        let mut bi: usize = 0;
        while bi < b_edges.len()
            invariant
                bi <= b_edges@.len(),
                is_boundary_of(b_edges@, raw),
                raw == edge_records(ind),
                ind == indices@,
                nt == ind.len() / 3,
                fb@.len() == nt,
                forall|t: int| 0 <= t < nt ==> (#[trigger] fb@[t] == 1u8 <==> exists|i: int| 0 <= i < bi
                    && (#[trigger] b_edges@[i]).triangle as int == t),
                forall|t: int| 0 <= t < nt ==> (#[trigger] fb@[t] == 0u8 || fb@[t] == 1u8),
            decreases b_edges@.len() - bi,
        {
            let t = b_edges[bi].triangle;
            proof {
                assert(raw.contains(b_edges@[bi as int].record()));
                let y = choose|y: int| 0 <= y < raw.len() && raw[y] == b_edges@[bi as int].record();
                lemma_record_triangle(ind, y);
            }
            fb.set(t as usize, 1);
            bi += 1;
        }
        proof {
            assert forall|t: int| 0 <= t < nt implies fb@[t] == (if has_open_edge(ind, t) { 1u8 } else { 0u8 }) by {
                if fb@[t] == 1u8 {
                    let i = choose|i: int| 0 <= i < b_edges@.len() && (#[trigger] b_edges@[i]).triangle as int == t;
                    assert(raw.contains(b_edges@[i].record()));
                    let y = choose|y: int| 0 <= y < raw.len() && raw[y] == b_edges@[i].record();
                    assert(is_open(raw, y));
                }
                if has_open_edge(ind, t) {
                    let x = choose|x: int| is_open(raw, x) && raw[x].1.1 as int == t;
                    lemma_open_record(b_edges@, raw, x);
                    let i = choose|i: int| 0 <= i < b_edges@.len() && (#[trigger] b_edges@[i]).record() == raw[x];
                }
            }
            assert(fb@ =~= as_bytes(Seq::new(nt as nat, |t: int| has_open_edge(ind, t))));
        }
        return fb;
    }
    let out = to_bytes(&mask);
    out
}

/// Some open record, when there is a boundary edge.
spec fn pos_of(r: Seq<BoundaryEdge>, raw: Seq<EdgeRecord>) -> int {
    choose|x: int| 0 <= x < raw.len() && raw[x] == r[0].record()
}

proof fn lemma_record_vertices(ind: Seq<u32>, y: int)
    requires
        0 <= y < edge_records(ind).len(),
    ensures
        ({
            let e = edge_records(ind)[y];
            0 <= y / 3 < ind.len() / 3 && corner_of(ind, y / 3, e.1.0.0 as int) && corner_of(ind, y / 3, e.1.0.1 as int)
                && 3 * (y / 3) + 2 < ind.len()
        }),
{
    let nt = ind.len() / 3;
    assert(3 * (y / 3) + 2 < ind.len()) by (nonlinear_arith)
        requires
            0 <= y < 3 * nt,
            nt == ind.len() / 3,
    ;
}

proof fn lemma_record_triangle(ind: Seq<u32>, y: int)
    requires
        0 <= y < edge_records(ind).len(),
    ensures
        (edge_records(ind)[y].1.1 as int) < ind.len() / 3,
{
    let nt = ind.len() / 3;
    let t = y / 3;
    assert(0 <= t < nt) by (nonlinear_arith)
        requires
            0 <= y < 3 * nt,
            t == y / 3,
    ;
    if t <= u32::MAX {
        assert((t as u32) as int == t);
    } else {
        assert((t as u32) as int <= u32::MAX);
    }
}

fn vec_of<T: Copy>(n: usize, v: T) -> (r: Vec<T>)
    ensures
        r@ == Seq::new(n as nat, |i: int| v),
{
    let mut r: Vec<T> = Vec::new();
    let mut i: usize = 0;
    while i < n
        invariant
            i <= n,
            r@ == Seq::new(i as nat, |k: int| v),
        decreases n - i,
    {
        r.push(v);
        i += 1;
        assert(r@ =~= Seq::new(i as nat, |k: int| v));
    }
    r
}

fn count_trues(s: &Vec<bool>) -> (c: usize)
    ensures
        c == count_true(s@),
{
    let mut c: usize = 0;
    let mut i: usize = 0;
    while i < s.len()
        invariant
            i <= s@.len(),
            c == count_true(s@.take(i as int)),
            c <= i,
        decreases s@.len() - i,
    {
        assert(s@.take(i + 1).drop_last() =~= s@.take(i as int));
        if s[i] {
            c += 1;
        }
        i += 1;
    }
    assert(s@.take(s@.len() as int) =~= s@);
    c
}

fn to_bytes(s: &Vec<bool>) -> (r: Vec<u8>)
    ensures
        r@ == as_bytes(s@),
{
    let mut r: Vec<u8> = Vec::new();
    let mut i: usize = 0;
    while i < s.len()
        invariant
            i <= s@.len(),
            r@ == as_bytes(s@.take(i as int)),
        decreases s@.len() - i,
    {
        r.push(if s[i] {
            1u8
        } else {
            0u8
        });
        i += 1;
        assert(r@ =~= as_bytes(s@.take(i as int)));
    }
    assert(s@.take(s@.len() as int) =~= s@);
    r
}

/// One ring of growth: masks the triangles touching `active` and returns
/// their corners.
fn grow_ring(indices: &[u32], nv: usize, active: &Vec<bool>, mask: Vec<bool>, Ghost(r): Ghost<nat>) -> (res: (Vec<bool>, Vec<bool>))
    requires
        active@ == dilated(indices@, nv as nat, r),
        mask@.len() == indices@.len() / 3,
        forall|k: int| 0 <= k < indices@.len() ==> (#[trigger] indices@[k]) < nv,
        forall|t: int| 0 <= t < indices@.len() / 3 ==> (#[trigger] mask@[t] <==> exists|q: nat| q < r
            && #[trigger] touches(indices@, t, dilated(indices@, nv as nat, q))),
    ensures
        res.1@ == dilated(indices@, nv as nat, r + 1),
        res.0@.len() == indices@.len() / 3,
        forall|t: int| 0 <= t < indices@.len() / 3 ==> (#[trigger] res.0@[t] <==> exists|q: nat| q < r + 1
            && #[trigger] touches(indices@, t, dilated(indices@, nv as nat, q))),
{
    let ghost ind = indices@;
    let len = indices.len();
    let nt = len / 3;
    let mut mask = mask;
    let mut next = vec_of(nv, false);
    let mut t: usize = 0;
    while t < nt
        invariant
            t <= nt,
            nt == ind.len() / 3,
            len == ind.len(),
            ind == indices@,
            active@ == dilated(ind, nv as nat, r),
            active@.len() == nv,
            next@.len() == nv,
            mask@.len() == nt,
            forall|k: int| 0 <= k < ind.len() ==> (#[trigger] ind[k]) < nv,
            forall|u: int| #![trigger mask@[u]] 0 <= u < nt ==> (mask@[u] <==> exists|q: nat| q < r + (if u < t {
                1int
            } else {
                0int
            }) && #[trigger] touches(ind, u, dilated(ind, nv as nat, q))),
            forall|v: int| 0 <= v < nv ==> (#[trigger] next@[v] <==> exists|u: int| 0 <= u < t
                && touches(ind, u, active@) && corner_of(ind, u, v)),
        decreases nt - t,
    {
        assert(3 * t + 2 < ind.len()) by (nonlinear_arith)
            requires
                t < nt,
                nt == ind.len() / 3,
        ;
        let b = 3 * t;
        let i0 = indices[b];
        let i1 = indices[b + 1];
        let i2 = indices[b + 2];
        assert(i0 < nv && i1 < nv && i2 < nv);
        let ghost old_next = next@;
        let ghost old_mask = mask@;
        if active[i0 as usize] || active[i1 as usize] || active[i2 as usize] {
            mask.set(t, true);
            next.set(i0 as usize, true);
            next.set(i1 as usize, true);
            next.set(i2 as usize, true);
            proof {
                assert(touches(ind, t as int, active@));
                assert forall|v: int| 0 <= v < nv implies (#[trigger] next@[v] <==> exists|u: int| 0 <= u < t + 1
                    && touches(ind, u, active@) && corner_of(ind, u, v)) by {
                    if next@[v] && !old_next[v] {
                        assert(corner_of(ind, t as int, v));
                    }
                    if old_next[v] {
                        let u = choose|u: int| 0 <= u < t && touches(ind, u, active@) && corner_of(ind, u, v);
                    }
                }
                assert(mask@[t as int]);
                assert(touches(ind, t as int, dilated(ind, nv as nat, r)));
            }
        } else {
            proof {
                assert(!touches(ind, t as int, active@));
                assert forall|v: int| 0 <= v < nv implies (#[trigger] next@[v] <==> exists|u: int| 0 <= u < t + 1
                    && touches(ind, u, active@) && corner_of(ind, u, v)) by {
                    if old_next[v] {
                        let u = choose|u: int| 0 <= u < t && touches(ind, u, active@) && corner_of(ind, u, v);
                    }
                }
            }
        }
        proof {
            assert forall|u: int| #![trigger mask@[u]] 0 <= u < nt implies (mask@[u] <==> exists|q: nat| q < r + (if u < t + 1 {
                1int
            } else {
                0int
            }) && #[trigger] touches(ind, u, dilated(ind, nv as nat, q))) by {
                if u == t {
                    if mask@[u] && !old_mask[u] {
                        assert(touches(ind, u, dilated(ind, nv as nat, r)));
                    }
                    if !mask@[u] {
                        assert(!touches(ind, u, dilated(ind, nv as nat, r)));
                    }
                }
            }
        }
        t += 1;
    }
    assert(next@ =~= ring(ind, nv as nat, active@));
    (mask, next)
}

} // verus!
