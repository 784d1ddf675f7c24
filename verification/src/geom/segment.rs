//! Face regions: tiny regions join the neighbouring region they share the
//! most edges with.
use vstd::prelude::*;
use super::topology::MeshTopology;
use super::shells::{ids_of_size, lemma_ids_of_size_bound, lemma_ids_of_size_distinct, lemma_ids_of_size_members};
use super::retopo::extract::{lemma_total_update, total};

verus! {

/// Whether the neighbour `nb` of a triangle of region `r` lies in region
/// `o`, another region than `r`.
pub open spec fn nb_hit(of: Seq<i32>, nb: u32, r: int, o: int) -> nat {
    if nb != u32::MAX && o >= 0 && o != r && of[nb as int] == o {
        1
    } else {
        0
    }
}

/// How many edges of triangle `t` lead into region `o`.
pub open spec fn tri_hits(nbrs: Seq<[u32; 3]>, of: Seq<i32>, t: u32, r: int, o: int) -> nat {
    nb_hit(of, nbrs[t as int][0], r, o) + nb_hit(of, nbrs[t as int][1], r, o) + nb_hit(of, nbrs[t as int][2], r, o)
}

/// How many edges of the triangles `tris` (of region `r`) lead into region
/// `o`.
pub open spec fn shared_edges(nbrs: Seq<[u32; 3]>, of: Seq<i32>, tris: Seq<u32>, r: int, o: int) -> nat
    decreases tris.len(),
{
    if tris.len() == 0 {
        0
    } else {
        shared_edges(nbrs, of, tris.drop_last(), r, o) + tri_hits(nbrs, of, tris.last(), r, o)
    }
}

/// Region `o` shares the most edges with the triangles `tris`, at least
/// one, and no region of a lower number shares as many.
pub open spec fn most_shared(nbrs: Seq<[u32; 3]>, of: Seq<i32>, tris: Seq<u32>, r: int, o: int) -> bool {
    &&& shared_edges(nbrs, of, tris, r, o) > 0
    &&& forall|p: int|
        #[trigger] shared_edges(nbrs, of, tris, r, p) <= shared_edges(nbrs, of, tris, r, o) && (p < o
            ==> shared_edges(nbrs, of, tris, r, p) < shared_edges(nbrs, of, tris, r, o))
}

/// Triangle `x` is one of `tris`.
pub open spec fn lists(tris: Seq<u32>, x: int) -> bool {
    exists|k: int| 0 <= k < tris.len() && tris[k] as int == x
}

/// The region of each triangle of `tris` becomes `o`.
pub open spec fn relabel(of: Seq<i32>, tris: Seq<u32>, o: int) -> Seq<i32> {
    Seq::new(of.len(), |x: int| if lists(tris, x) { o as i32 } else { of[x] })
}

/// Region `r` joins the region it shares the most edges with, if it has a
/// neighbour: its triangles move to the end of that region's list.
pub open spec fn merge_step(nbrs: Seq<[u32; 3]>, st: (Seq<Seq<u32>>, Seq<i32>), r: int) -> (Seq<Seq<u32>>, Seq<i32>) {
    let tris = st.0[r];
    if exists|o: int| most_shared(nbrs, st.1, tris, r, o) {
        let o = choose|o: int| most_shared(nbrs, st.1, tris, r, o);
        (st.0.update(r, Seq::empty()).update(o, st.0[o] + tris), relabel(st.1, tris, o))
    } else {
        st
    }
}

/// The regions of `order` joining their neighbours in turn.
pub open spec fn merged(nbrs: Seq<[u32; 3]>, st: (Seq<Seq<u32>>, Seq<i32>), order: Seq<usize>) -> (Seq<Seq<u32>>, Seq<i32>)
    decreases order.len(),
{
    if order.len() == 0 {
        st
    } else {
        merge_step(nbrs, merged(nbrs, st, order.drop_last()), order.last() as int)
    }
}

/// The regions of fewer than `m` triangles, smallest first, and regions
/// of one size by number.
pub open spec fn smaller_than(cs: Seq<Seq<u32>>, m: nat) -> Seq<usize>
    decreases m,
{
    if m == 0 {
        Seq::empty()
    } else {
        smaller_than(cs, (m - 1) as nat) + ids_of_size(cs, (m - 1) as nat, cs.len() as int)
    }
}

/// Every triangle listed is a triangle of the mesh and has a region entry,
/// every neighbour is an open edge or has a region entry, and every region
/// entry is ungrouped (negative) or names a region.
pub open spec fn regions_ok(nbrs: Seq<[u32; 3]>, rs: Seq<Seq<u32>>, of: Seq<i32>) -> bool {
    &&& forall|r: int, k: int|
        0 <= r < rs.len() && 0 <= k < rs[r].len() ==> #[trigger] rs[r][k] < nbrs.len() && rs[r][k] < of.len()
    &&& forall|t: int, e: int|
        0 <= t < nbrs.len() && 0 <= e < 3 ==> #[trigger] nbrs[t][e] == u32::MAX || nbrs[t][e] < of.len()
    &&& forall|x: int| 0 <= x < of.len() ==> #[trigger] of[x] < rs.len()
}

// ---------------------------------------------------------------------------
// Lemmas
// ---------------------------------------------------------------------------

proof fn lemma_shared_bound(nbrs: Seq<[u32; 3]>, of: Seq<i32>, tris: Seq<u32>, r: int, o: int)
    ensures
        shared_edges(nbrs, of, tris, r, o) <= 3 * tris.len(),
        shared_edges(nbrs, of, tris, r, o) > 0 ==> o >= 0 && o != r,
    decreases tris.len(),
{
    if tris.len() > 0 {
        lemma_shared_bound(nbrs, of, tris.drop_last(), r, o);
    }
}

/// A region that shares an edge is named by the region entry of a
/// neighbour.
proof fn lemma_shared_named(nbrs: Seq<[u32; 3]>, rs: Seq<Seq<u32>>, of: Seq<i32>, tris: Seq<u32>, r: int, o: int)
    requires
        regions_ok(nbrs, rs, of),
        forall|k: int| 0 <= k < tris.len() ==> #[trigger] tris[k] < nbrs.len(),
        shared_edges(nbrs, of, tris, r, o) > 0,
    ensures
        0 <= o < rs.len(),
        o <= i32::MAX,
        o != r,
    decreases tris.len(),
{
    let pre = tris.drop_last();
    if shared_edges(nbrs, of, pre, r, o) > 0 {
        lemma_shared_named(nbrs, rs, of, pre, r, o);
    } else {
        let t = tris.last();
        assert(tris[tris.len() - 1] < nbrs.len());
        let e = if nb_hit(of, nbrs[t as int][0], r, o) > 0 {
            0int
        } else if nb_hit(of, nbrs[t as int][1], r, o) > 0 {
            1int
        } else {
            2int
        };
        assert(nbrs[t as int][e] == u32::MAX || nbrs[t as int][e] < of.len());
        assert(of[nbrs[t as int][e] as int] == o);
    }
}

proof fn lemma_most_shared_unique(nbrs: Seq<[u32; 3]>, of: Seq<i32>, tris: Seq<u32>, r: int, a: int, b: int)
    requires
        most_shared(nbrs, of, tris, r, a),
        most_shared(nbrs, of, tris, r, b),
    ensures
        a == b,
{
    assert(shared_edges(nbrs, of, tris, r, a) <= shared_edges(nbrs, of, tris, r, b));
    assert(shared_edges(nbrs, of, tris, r, b) <= shared_edges(nbrs, of, tris, r, a));
}

/// A region either stays as it is, or joins a region `o` with which it
/// shares at least one edge and no fewer edges than with any other region,
/// every region of a lower number sharing strictly fewer: its triangles
/// move to the end of `o`'s list, its own list empties, and their region
/// entries become `o`.
pub proof fn lemma_merge_joins_most_shared(nbrs: Seq<[u32; 3]>, st: (Seq<Seq<u32>>, Seq<i32>), r: int)
    requires
        0 <= r < st.0.len(),
    ensures
        merge_step(nbrs, st, r) == st || exists|o: int|
            {
                &&& o != r
                &&& shared_edges(nbrs, st.1, st.0[r], r, o) > 0
                &&& forall|p: int|
                    shared_edges(nbrs, st.1, st.0[r], r, p) <= shared_edges(nbrs, st.1, st.0[r], r, o)
                        && (p < o ==> shared_edges(nbrs, st.1, st.0[r], r, p) < shared_edges(nbrs, st.1, st.0[r], r, o))
                &&& merge_step(nbrs, st, r).0 == st.0.update(r, Seq::empty()).update(o, st.0[o] + st.0[r])
                &&& merge_step(nbrs, st, r).1 == relabel(st.1, st.0[r], o)
            },
{
    let tris = st.0[r];
    if exists|o: int| most_shared(nbrs, st.1, tris, r, o) {
        let o = choose|o: int| most_shared(nbrs, st.1, tris, r, o);
        lemma_shared_bound(nbrs, st.1, tris, r, o);
        assert forall|p: int|
            shared_edges(nbrs, st.1, tris, r, p) <= shared_edges(nbrs, st.1, tris, r, o)
                && (p < o ==> shared_edges(nbrs, st.1, tris, r, p) < shared_edges(nbrs, st.1, tris, r, o)) by {
            assert(most_shared(nbrs, st.1, tris, r, o));
        }
    }
}

proof fn lemma_len_le_total(rs: Seq<Seq<u32>>, i: int)
    requires
        0 <= i < rs.len(),
    ensures
        rs[i].len() <= total(rs),
    decreases rs.len(),
{
    if i < rs.len() - 1 {
        lemma_len_le_total(rs.drop_last(), i);
    }
}

/// A step keeps the bounds of the regions and their total size.
proof fn lemma_merge_step_ok(nbrs: Seq<[u32; 3]>, st: (Seq<Seq<u32>>, Seq<i32>), r: int)
    requires
        regions_ok(nbrs, st.0, st.1),
        0 <= r < st.0.len(),
    ensures
        regions_ok(nbrs, merge_step(nbrs, st, r).0, merge_step(nbrs, st, r).1),
        merge_step(nbrs, st, r).0.len() == st.0.len(),
        merge_step(nbrs, st, r).1.len() == st.1.len(),
        total(merge_step(nbrs, st, r).0) == total(st.0),
{
    let (rs, of) = st;
    let tris = rs[r];
    if exists|o: int| most_shared(nbrs, of, tris, r, o) {
        let o = choose|o: int| most_shared(nbrs, of, tris, r, o);
        lemma_shared_named(nbrs, rs, of, tris, r, o);
        let a = rs.update(r, Seq::empty());
        let rs2 = a.update(o, rs[o] + tris);
        let of2 = relabel(of, tris, o);
        lemma_total_update(rs, r, Seq::empty());
        lemma_total_update(a, o, rs[o] + tris);
        assert forall|q: int, k: int| 0 <= q < rs2.len() && 0 <= k < rs2[q].len() implies #[trigger] rs2[q][k]
            < nbrs.len() && rs2[q][k] < of2.len() by {
            if q == o {
                if k < rs[o].len() {
                    assert(rs2[q][k] == rs[o][k]);
                } else {
                    assert(rs2[q][k] == rs[r][k - rs[o].len()]);
                }
            } else {
                assert(rs2[q][k] == rs[q][k]);
            }
        }
        assert forall|x: int| 0 <= x < of2.len() implies #[trigger] of2[x] < rs2.len() by {}
    }
}

/// The order in which tiny regions merge lists exactly the regions of fewer
/// than `m` triangles, each once, smallest first.
pub proof fn lemma_smaller_than_smallest_first(cs: Seq<Seq<u32>>, m: nat)
    requires
        cs.len() <= usize::MAX,
    ensures
        forall|q: int| 0 <= q < smaller_than(cs, m).len() ==> (#[trigger] smaller_than(cs, m)[q]) < cs.len()
            && cs[smaller_than(cs, m)[q] as int].len() < m,
        forall|j: int| 0 <= j < cs.len() && (#[trigger] cs[j]).len() < m ==> smaller_than(cs, m).contains(j as usize),
        forall|a: int, b: int|
            0 <= a < b < smaller_than(cs, m).len() ==> cs[#[trigger] smaller_than(cs, m)[a] as int].len() <= cs[
                #[trigger] smaller_than(cs, m)[b] as int].len() && smaller_than(cs, m)[a] != smaller_than(cs, m)[b],
    decreases m,
{
    lemma_smaller_than_bound(cs, m);
    if m > 0 {
        let m1 = (m - 1) as nat;
        lemma_smaller_than_smallest_first(cs, m1);
        lemma_ids_of_size_bound(cs, m1, cs.len() as int);
        lemma_ids_of_size_members(cs, m1, cs.len() as int);
        lemma_ids_of_size_distinct(cs, m1, cs.len() as int);
        let a = smaller_than(cs, m1);
        let b = ids_of_size(cs, m1, cs.len() as int);
        let s = smaller_than(cs, m);
        assert(s == a + b);
        assert forall|q: int| 0 <= q < s.len() implies (#[trigger] s[q]) < cs.len() && cs[s[q] as int].len() < m by {
            if q < a.len() {
                assert(s[q] == a[q]);
            } else {
                assert(s[q] == b[q - a.len()]);
            }
        }
        assert forall|j: int| 0 <= j < cs.len() && (#[trigger] cs[j]).len() < m implies s.contains(j as usize) by {
            if cs[j].len() < m1 {
                let q = choose|q: int| 0 <= q < a.len() && a[q] == j as usize;
                assert(s[q] == a[q]);
            } else {
                let q = choose|q: int| 0 <= q < b.len() && b[q] == j as usize;
                assert(s[a.len() + q] == b[q]);
            }
        }
        assert forall|x: int, y: int|
            0 <= x < y < s.len() implies cs[#[trigger] s[x] as int].len() <= cs[#[trigger] s[y] as int].len() && s[x] != s[y] by {
            if y < a.len() {
                assert(s[x] == a[x] && s[y] == a[y]);
            } else if x >= a.len() {
                assert(s[x] == b[x - a.len()] && s[y] == b[y - a.len()]);
            } else {
                assert(s[x] == a[x] && s[y] == b[y - a.len()]);
                assert(cs[b[y - a.len()] as int].len() == m1);
            }
        }
    }
}

/// Whole runs keep the bounds and the total size.
proof fn lemma_merged_ok(nbrs: Seq<[u32; 3]>, st: (Seq<Seq<u32>>, Seq<i32>), order: Seq<usize>)
    requires
        regions_ok(nbrs, st.0, st.1),
        forall|k: int| 0 <= k < order.len() ==> #[trigger] order[k] < st.0.len(),
    ensures
        regions_ok(nbrs, merged(nbrs, st, order).0, merged(nbrs, st, order).1),
        merged(nbrs, st, order).0.len() == st.0.len(),
        merged(nbrs, st, order).1.len() == st.1.len(),
        total(merged(nbrs, st, order).0) == total(st.0),
    decreases order.len(),
{
    if order.len() > 0 {
        lemma_merged_ok(nbrs, st, order.drop_last());
        lemma_merge_step_ok(nbrs, merged(nbrs, st, order.drop_last()), order.last() as int);
    }
}

proof fn lemma_no_ids_of_size(cs: Seq<Seq<u32>>, m: nat, k: int)
    requires
        0 <= k <= cs.len(),
        forall|j: int| 0 <= j < k ==> #[trigger] cs[j].len() != m,
    ensures
        ids_of_size(cs, m, k) == Seq::<usize>::empty(),
    decreases k,
{
    if k > 0 {
        lemma_no_ids_of_size(cs, m, k - 1);
    }
}

/// Sizes no region has add nothing to the order.
proof fn lemma_smaller_than_cap(cs: Seq<Seq<u32>>, cap: nat, m: nat)
    requires
        cap <= m,
        forall|j: int| 0 <= j < cs.len() ==> #[trigger] cs[j].len() < cap,
    ensures
        smaller_than(cs, m) == smaller_than(cs, cap),
    decreases m,
{
    if m > cap {
        lemma_smaller_than_cap(cs, cap, (m - 1) as nat);
        lemma_no_ids_of_size(cs, (m - 1) as nat, cs.len() as int);
        assert(smaller_than(cs, m) =~= smaller_than(cs, (m - 1) as nat));
    }
}

proof fn lemma_smaller_than_bound(cs: Seq<Seq<u32>>, m: nat)
    requires
        cs.len() <= usize::MAX,
    ensures
        forall|q: int| 0 <= q < smaller_than(cs, m).len() ==> (#[trigger] smaller_than(cs, m)[q]) < cs.len(),
    decreases m,
{
    if m > 0 {
        lemma_smaller_than_bound(cs, (m - 1) as nat);
        lemma_ids_of_size_bound(cs, (m - 1) as nat, cs.len() as int);
        let a = smaller_than(cs, (m - 1) as nat);
        let b = ids_of_size(cs, (m - 1) as nat, cs.len() as int);
        assert forall|q: int| 0 <= q < smaller_than(cs, m).len() implies (#[trigger] smaller_than(cs, m)[q]) < cs.len() by {
            if q < a.len() {
                assert(smaller_than(cs, m)[q] == a[q]);
            } else {
                assert(smaller_than(cs, m)[q] == b[q - a.len()]);
            }
        }
    }
}

/// The regions of fewer than `tiny` triangles, smallest first (a bucket
/// per size).
fn regions_by_size(regions: &Vec<Vec<u32>>, tiny: usize) -> (order: Vec<usize>)
    ensures
        order@ == smaller_than(regions.deep_view(), tiny as nat),
        forall|q: int| 0 <= q < order@.len() ==> #[trigger] order@[q] < regions@.len(),
{
    let ghost cs = regions.deep_view();
    let n = regions.len();
    let mut maxlen: usize = 0;
    let mut id: usize = 0;
    while id < n
        invariant
            n == regions@.len(),
            cs == regions.deep_view(),
            id <= n,
            forall|j: int| 0 <= j < id ==> #[trigger] cs[j].len() <= maxlen,
        decreases n - id,
    {
        if regions[id].len() > maxlen {
            maxlen = regions[id].len();
        }
        id += 1;
    }
    let cap = if tiny <= maxlen {
        tiny
    } else {
        maxlen + 1
    };
    let mut buckets: Vec<Vec<usize>> = Vec::new();
    let mut m: usize = 0;
    while m < cap
        invariant
            m <= cap,
            buckets@.len() == m,
            forall|s: int| 0 <= s < m ==> (#[trigger] buckets@[s])@ == Seq::<usize>::empty(),
        decreases cap - m,
    {
        buckets.push(Vec::new());
        m += 1;
    }
    let mut id: usize = 0;
    while id < n
        invariant
            n == regions@.len(),
            cs == regions.deep_view(),
            id <= n,
            buckets@.len() == cap,
            forall|s: int| 0 <= s < cap ==> (#[trigger] buckets@[s])@ == ids_of_size(cs, s as nat, id as int),
        decreases n - id,
    {
        let size = regions[id].len();
        assert(cs[id as int].len() == size);
        if size < cap {
            let mut b: Vec<usize> = Vec::new();
            buckets.set_and_swap(size, &mut b);
            b.push(id);
            buckets.set_and_swap(size, &mut b);
        }
        id += 1;
    }
    let mut order: Vec<usize> = Vec::new();
    let mut s: usize = 0;
    while s < cap
        invariant
            s <= cap,
            buckets@.len() == cap,
            forall|w: int| 0 <= w < cap ==> (#[trigger] buckets@[w])@ == ids_of_size(cs, w as nat, cs.len() as int),
            order@ == smaller_than(cs, s as nat),
        decreases cap - s,
    {
        let b = &buckets[s];
        let mut q: usize = 0;
        let ghost before = order@;
        while q < b.len()
            invariant
                q <= b@.len(),
                order@ == before + b@.take(q as int),
            decreases b@.len() - q,
        {
            order.push(b[q]);
            q += 1;
            assert(order@ =~= before + b@.take(q as int));
        }
        assert(b@.take(b@.len() as int) =~= b@);
        s += 1;
    }
    proof {
        if cap < tiny {
            lemma_smaller_than_cap(cs, cap as nat, tiny as nat);
        }
        lemma_smaller_than_bound(cs, tiny as nat);
    }
    order
}

/// Each listed triangle carries the number of its region, and each
/// triangle with a region is listed in it.
pub open spec fn consistent(rs: Seq<Seq<u32>>, of: Seq<i32>) -> bool {
    &&& forall|r: int, k: int|
        0 <= r < rs.len() && 0 <= k < rs[r].len() ==> #[trigger] rs[r][k] < of.len() && of[rs[r][k] as int] == r
    &&& forall|x: int| 0 <= x < of.len() && #[trigger] of[x] >= 0 ==> of[x] < rs.len() && lists(rs[of[x] as int], x)
}

proof fn lemma_merge_step_consistent(nbrs: Seq<[u32; 3]>, st: (Seq<Seq<u32>>, Seq<i32>), r: int)
    requires
        regions_ok(nbrs, st.0, st.1),
        consistent(st.0, st.1),
        0 <= r < st.0.len(),
    ensures
        consistent(merge_step(nbrs, st, r).0, merge_step(nbrs, st, r).1),
        forall|x: int| 0 <= x < st.1.len() ==> (#[trigger] merge_step(nbrs, st, r).1[x] >= 0) == (st.1[x] >= 0),
{
    let (rs, of) = st;
    let tris = rs[r];
    if exists|o: int| most_shared(nbrs, of, tris, r, o) {
        let o = choose|o: int| most_shared(nbrs, of, tris, r, o);
        assert forall|k: int| 0 <= k < tris.len() implies #[trigger] tris[k] < nbrs.len() by {
            assert(rs[r][k] < nbrs.len());
        }
        lemma_shared_named(nbrs, rs, of, tris, r, o);
        let rs2 = rs.update(r, Seq::empty()).update(o, rs[o] + tris);
        let of2 = relabel(of, tris, o);
        assert(merge_step(nbrs, st, r) == (rs2, of2));
        assert forall|q: int, k: int| 0 <= q < rs2.len() && 0 <= k < rs2[q].len() implies #[trigger] rs2[q][k] < of2.len()
            && of2[rs2[q][k] as int] == q by {
            let y = rs2[q][k];
            if q == o {
                if k < rs[o].len() {
                    assert(y == rs[o][k]);
                    if lists(tris, y as int) {
                        let w = choose|w: int| 0 <= w < tris.len() && tris[w] as int == y as int;
                        assert(rs[r][w] == y);
                    }
                } else {
                    assert(y == tris[k - rs[o].len()]);
                }
            } else {
                assert(q != r);
                assert(y == rs[q][k]);
                if lists(tris, y as int) {
                    let w = choose|w: int| 0 <= w < tris.len() && tris[w] as int == y as int;
                    assert(rs[r][w] == y);
                }
            }
        }
        assert forall|x: int| 0 <= x < of2.len() && #[trigger] of2[x] >= 0 implies of2[x] < rs2.len() && lists(rs2[of2[x] as int], x) by {
            if lists(tris, x) {
                let w = choose|w: int| 0 <= w < tris.len() && tris[w] as int == x;
                assert(rs2[o][rs[o].len() + w] == tris[w]);
            } else {
                let p = of[x] as int;
                let w = choose|w: int| 0 <= w < rs[p].len() && rs[p][w] as int == x;
                if p == r {
                    assert(tris[w] as int == x);
                } else if p == o {
                    assert(rs2[o][w] == rs[o][w]);
                } else {
                    assert(rs2[p][w] == rs[p][w]);
                }
            }
        }
        assert forall|x: int| 0 <= x < of.len() implies (#[trigger] of2[x] >= 0) == (of[x] >= 0) by {
            if lists(tris, x) {
                let w = choose|w: int| 0 <= w < tris.len() && tris[w] as int == x;
                assert(rs[r][w] == tris[w]);
            }
        }
    }
}

/// Merging keeps the regions and the region numbers of the triangles in
/// step: every listed triangle carries its region's number and every
/// grouped triangle is listed in its region. No triangle is grouped or
/// ungrouped, and the regions hold as many entries as before.
pub proof fn lemma_merge_keeps_regions(nbrs: Seq<[u32; 3]>, rs: Seq<Seq<u32>>, of: Seq<i32>, order: Seq<usize>)
    requires
        regions_ok(nbrs, rs, of),
        consistent(rs, of),
        forall|k: int| 0 <= k < order.len() ==> #[trigger] order[k] < rs.len(),
    ensures
        consistent(merged(nbrs, (rs, of), order).0, merged(nbrs, (rs, of), order).1),
        forall|x: int| 0 <= x < of.len() ==> (#[trigger] merged(nbrs, (rs, of), order).1[x] >= 0) == (of[x] >= 0),
        total(merged(nbrs, (rs, of), order).0) == total(rs),
    decreases order.len(),
{
    lemma_merged_ok(nbrs, (rs, of), order);
    if order.len() > 0 {
        let pre = order.drop_last();
        lemma_merge_keeps_regions(nbrs, rs, of, pre);
        lemma_merged_ok(nbrs, (rs, of), pre);
        let m = merged(nbrs, (rs, of), pre);
        lemma_merge_step_consistent(nbrs, m, order.last() as int);
        assert forall|x: int| 0 <= x < of.len() implies (#[trigger] merged(nbrs, (rs, of), order).1[x] >= 0) == (of[x] >= 0) by {
            assert((m.1[x] >= 0) == (of[x] >= 0));
        }
    }
}

/// Every region with a count is listed, and every listed region has one.
pub open spec fn touched_ok(c: Seq<usize>, tl: Seq<usize>) -> bool {
    &&& forall|o: int| 0 <= o < c.len() && #[trigger] c[o] > 0 ==> tl.contains(o as usize)
    &&& forall|j: int| 0 <= j < tl.len() ==> #[trigger] tl[j] < c.len() && c[tl[j] as int] > 0
}

/// Counts the neighbour `nb` for its region, when that is another region
/// than `r`.
fn tally(counts: &mut Vec<usize>, touched: &mut Vec<usize>, of: &Vec<i32>, nb: u32, r: usize)
    requires
        nb == u32::MAX || nb < of@.len(),
        forall|x: int| 0 <= x < of@.len() ==> #[trigger] of@[x] < old(counts)@.len(),
        forall|o: int| 0 <= o < old(counts)@.len() ==> #[trigger] old(counts)@[o] < usize::MAX,
        touched_ok(old(counts)@, old(touched)@),
    ensures
        final(counts)@.len() == old(counts)@.len(),
        forall|o: int| 0 <= o < old(counts)@.len() ==> #[trigger] final(counts)@[o] == old(counts)@[o] + nb_hit(of@, nb, r as int, o),
        touched_ok(final(counts)@, final(touched)@),
{
    if nb != u32::MAX {
        let other = of[nb as usize];
        if other >= 0 && other as usize != r {
            let o = other as usize;
            assert(of@[nb as int] < counts@.len());
            let ghost c0 = counts@;
            let ghost t0 = touched@;
            if counts[o] == 0 {
                touched.push(o);
            }
            let c = counts[o] + 1;
            counts.set(o, c);
            assert forall|p: int| 0 <= p < counts@.len() && #[trigger] counts@[p] > 0 implies touched@.contains(p as usize) by {
                if p == o as int {
                    if c0[p] == 0 {
                        assert(touched@[touched@.len() - 1] == o);
                    } else {
                        let j = choose|j: int| 0 <= j < t0.len() && t0[j] == p as usize;
                        assert(touched@[j] == t0[j]);
                    }
                } else {
                    assert(c0[p] > 0);
                    let j = choose|j: int| 0 <= j < t0.len() && t0[j] == p as usize;
                    assert(touched@[j] == t0[j]);
                }
            }
            assert forall|j: int| 0 <= j < touched@.len() implies #[trigger] touched@[j] < counts@.len() && counts@[touched@[j] as int] > 0 by {
                if j < t0.len() {
                    assert(touched@[j] == t0[j]);
                }
            }
        }
    }
}

proof fn lemma_merged_push(nbrs: Seq<[u32; 3]>, st: (Seq<Seq<u32>>, Seq<i32>), order: Seq<usize>, i: int)
    requires
        0 <= i < order.len(),
    ensures
        merged(nbrs, st, order.take(i + 1)) == merge_step(nbrs, merged(nbrs, st, order.take(i)), order[i] as int),
{
    assert(order.take(i + 1).drop_last() =~= order.take(i));
}

/// A region none of whose edges leads into another region stays.
proof fn lemma_no_neighbour(nbrs: Seq<[u32; 3]>, st: (Seq<Seq<u32>>, Seq<i32>), r: int)
    requires
        regions_ok(nbrs, st.0, st.1),
        0 <= r < st.0.len(),
        forall|o: int| 0 <= o < st.0.len() ==> #[trigger] shared_edges(nbrs, st.1, st.0[r], r, o) == 0,
    ensures
        merge_step(nbrs, st, r) == st,
{
    let tris = st.0[r];
    if exists|o: int| most_shared(nbrs, st.1, tris, r, o) {
        let o = choose|o: int| most_shared(nbrs, st.1, tris, r, o);
        assert forall|k: int| 0 <= k < tris.len() implies #[trigger] tris[k] < nbrs.len() by {
            assert(st.0[r][k] < nbrs.len());
        }
        lemma_shared_named(nbrs, st.0, st.1, tris, r, o);
        assert(false);
    }
}

/// Regions of fewer than `tiny` triangles, smallest first, join the
/// region they share the most edges with (the lowest numbered among
/// equals), so that chains of small islands collapse into their
/// surroundings. A region without a neighbouring region stays.
pub fn merge_tiny_regions(topo: &MeshTopology, regions: &mut Vec<Vec<u32>>, region_of: &mut Vec<i32>, tiny: usize)
    requires
        regions_ok(topo.neighbors@, old(regions).deep_view(), old(region_of)@),
        3 * total(old(regions).deep_view()) <= usize::MAX,
    ensures
        (final(regions).deep_view(), final(region_of)@) == merged(
            topo.neighbors@,
            (old(regions).deep_view(), old(region_of)@),
            smaller_than(old(regions).deep_view(), tiny as nat),
        ),
{
    let ghost nbrs = topo.neighbors@;
    let ghost st0 = (regions.deep_view(), region_of@);
    let order = regions_by_size(regions, tiny);
    let ghost ov = order@;
    let n = regions.len();
    let mut counts: Vec<usize> = Vec::new();
    while counts.len() < n
        invariant
            counts@.len() <= n,
            forall|o: int| 0 <= o < counts@.len() ==> #[trigger] counts@[o] == 0,
        decreases n - counts@.len(),
    {
        counts.push(0);
    }
    let mut touched: Vec<usize> = Vec::new();
    let mut i: usize = 0;
    while i < order.len()
        invariant
            order@ == ov,
            forall|q: int| 0 <= q < ov.len() ==> #[trigger] ov[q] < n,
            n == st0.0.len(),
            regions@.len() == n,
            topo.neighbors@ == nbrs,
            i <= ov.len(),
            (regions.deep_view(), region_of@) == merged(nbrs, st0, ov.take(i as int)),
            regions_ok(nbrs, regions.deep_view(), region_of@),
            total(regions.deep_view()) == total(st0.0),
            3 * total(st0.0) <= usize::MAX,
            counts@.len() == n,
            forall|o: int| 0 <= o < n ==> #[trigger] counts@[o] == 0,
            touched@.len() == 0,
        decreases ov.len() - i,
    {
        let r = order[i];
        proof {
            lemma_merged_push(nbrs, st0, ov, i as int);
        }
        let ghost cur = (regions.deep_view(), region_of@);
        let ghost tris = cur.0[r as int];
        assert(regions@[r as int]@ == tris);
        proof {
            lemma_merge_step_ok(nbrs, cur, r as int);
            lemma_len_le_total(cur.0, r as int);
        }
        assert forall|k: int| 0 <= k < tris.len() implies #[trigger] tris[k] < nbrs.len() && tris[k] < cur.1.len() by {
            assert(cur.0[r as int][k] < nbrs.len());
        }
        if regions[r].len() == 0 {
            proof {
                assert forall|o: int| 0 <= o < cur.0.len() implies #[trigger] shared_edges(nbrs, cur.1, cur.0[r as int], r as int, o) == 0 by {}
                lemma_no_neighbour(nbrs, cur, r as int);
            }
            i += 1;
            continue;
        }
        // Count the edges shared with each other region.
        let len = regions[r].len();
        let mut k: usize = 0;
        while k < len
            invariant
                regions.deep_view() == cur.0,
                region_of@ == cur.1,
                regions@[r as int]@ == tris,
                topo.neighbors@ == nbrs,
                regions_ok(nbrs, cur.0, cur.1),
                r < n,
                n == cur.0.len(),
                len == tris.len(),
                3 * tris.len() <= usize::MAX,
                forall|q: int| 0 <= q < tris.len() ==> #[trigger] tris[q] < nbrs.len() && tris[q] < cur.1.len(),
                k <= len,
                counts@.len() == n,
                forall|o: int| 0 <= o < n ==> #[trigger] counts@[o] == shared_edges(nbrs, cur.1, tris.take(k as int), r as int, o),
                touched_ok(counts@, touched@),
            decreases len - k,
        {
            let t = regions[r][k];
            assert(t == tris[k as int]);
            let nbr = topo.neighbors[t as usize];
            assert(nbr == nbrs[t as int]);
            let ghost c0 = counts@;
            assert forall|o: int| 0 <= o < n implies #[trigger] c0[o] + 3 <= usize::MAX by {
                lemma_shared_bound(nbrs, cur.1, tris.take(k as int), r as int, o);
            }
            assert(nbr[0] == u32::MAX || nbr[0] < cur.1.len());
            assert(nbr[1] == u32::MAX || nbr[1] < cur.1.len());
            assert(nbr[2] == u32::MAX || nbr[2] < cur.1.len());
            tally(&mut counts, &mut touched, region_of, nbr[0], r);
            tally(&mut counts, &mut touched, region_of, nbr[1], r);
            tally(&mut counts, &mut touched, region_of, nbr[2], r);
            proof {
                assert(tris.take(k + 1).drop_last() =~= tris.take(k as int));
                assert forall|o: int| 0 <= o < n implies #[trigger] counts@[o] == shared_edges(nbrs, cur.1, tris.take(k + 1), r as int, o) by {}
            }
            k += 1;
        }
        assert(tris.take(len as int) =~= tris);
        if touched.len() == 0 {
            proof {
                assert forall|o: int| 0 <= o < cur.0.len() implies #[trigger] shared_edges(nbrs, cur.1, cur.0[r as int], r as int, o) == 0 by {
                    if counts@[o] > 0 {
                        assert(touched@.contains(o as usize));
                    }
                }
                lemma_no_neighbour(nbrs, cur, r as int);
            }
            i += 1;
            continue;
        }
        // The region sharing the most edges, the lowest numbered among equals.
        let mut best: usize = touched[0];
        let mut j: usize = 1;
        while j < touched.len()
            invariant
                1 <= j <= touched@.len(),
                touched_ok(counts@, touched@),
                counts@.len() == n,
                best < n,
                counts@[best as int] > 0,
                forall|q: int|
                    0 <= q < j ==> counts@[#[trigger] touched@[q] as int] < counts@[best as int] || (counts@[touched@[q] as int]
                        == counts@[best as int] && best <= touched@[q]),
            decreases touched@.len() - j,
        {
            let o = touched[j];
            if counts[o] > counts[best] || (counts[o] == counts[best] && o < best) {
                best = o;
            }
            j += 1;
        }
        proof {
            assert forall|p: int| #[trigger] shared_edges(nbrs, cur.1, tris, r as int, p) <= shared_edges(nbrs, cur.1, tris, r as int, best as int)
                && (p < best ==> shared_edges(nbrs, cur.1, tris, r as int, p) < shared_edges(nbrs, cur.1, tris, r as int, best as int)) by {
                if shared_edges(nbrs, cur.1, tris, r as int, p) > 0 {
                    lemma_shared_named(nbrs, cur.0, cur.1, tris, r as int, p);
                    assert(counts@[p] > 0);
                    assert(touched@.contains(p as usize));
                    let q = choose|q: int| 0 <= q < touched@.len() && touched@[q] == p as usize;
                    assert(counts@[touched@[q] as int] < counts@[best as int] || (counts@[touched@[q] as int] == counts@[best as int]
                        && best <= touched@[q]));
                }
            }
            assert(most_shared(nbrs, cur.1, tris, r as int, best as int));
            let o = choose|o: int| most_shared(nbrs, cur.1, tris, r as int, o);
            lemma_most_shared_unique(nbrs, cur.1, tris, r as int, o, best as int);
            lemma_shared_named(nbrs, cur.0, cur.1, tris, r as int, best as int);
        }
        // Move the triangles over.
        let mut moved: Vec<u32> = Vec::new();
        regions.set_and_swap(r, &mut moved);
        assert(moved@ == tris);
        let target = best as i32;
        let mut q: usize = 0;
        while q < moved.len()
            invariant
                moved@ == tris,
                q <= tris.len(),
                forall|w: int| 0 <= w < tris.len() ==> #[trigger] tris[w] < cur.1.len(),
                region_of@ == relabel(cur.1, tris.take(q as int), best as int),
                target == best as i32,
                best < n,
                best <= i32::MAX,
            decreases tris.len() - q,
        {
            let t = moved[q];
            let ghost before = region_of@;
            region_of.set(t as usize, target);
            proof {
                let tq = tris.take(q as int);
                let tq1 = tris.take(q + 1);
                assert forall|x: int| 0 <= x < cur.1.len() implies #[trigger] region_of@[x] == relabel(cur.1, tq1, best as int)[x] by {
                    if x == t as int {
                        assert(tq1[q as int] == t);
                    } else {
                        if lists(tq1, x) {
                            let w = choose|w: int| 0 <= w < tq1.len() && tq1[w] as int == x;
                            assert(tq[w] == tq1[w]);
                        }
                        if lists(tq, x) {
                            let w = choose|w: int| 0 <= w < tq.len() && tq[w] as int == x;
                            assert(tq1[w] == tq[w]);
                        }
                    }
                }
                assert(region_of@ =~= relabel(cur.1, tq1, best as int));
            }
            q += 1;
        }
        assert(tris.take(tris.len() as int) =~= tris);
        let mut dest: Vec<u32> = Vec::new();
        regions.set_and_swap(best, &mut dest);
        dest.append(&mut moved);
        regions.set_and_swap(best, &mut dest);
        assert(regions.deep_view() =~= cur.0.update(r as int, Seq::empty()).update(best as int, cur.0[best as int] + tris)) by {
            assert forall|x: int| 0 <= x < n implies #[trigger] regions.deep_view()[x]
                == cur.0.update(r as int, Seq::empty()).update(best as int, cur.0[best as int] + tris)[x] by {
                if x == r as int {
                    assert(regions@[x]@ =~= Seq::<u32>::empty());
                }
            }
        }
        // Clear the counts.
        let mut j: usize = 0;
        while j < touched.len()
            invariant
                forall|w: int| 0 <= w < touched@.len() ==> #[trigger] touched@[w] < n,
                counts@.len() == n,
                j <= touched@.len(),
                forall|o: int| 0 <= o < n && #[trigger] counts@[o] > 0 ==> exists|w: int| j <= w < touched@.len() && touched@[w] == o,
            decreases touched@.len() - j,
        {
            let o = touched[j];
            counts.set(o, 0);
            j += 1;
        }
        touched.clear();
        i += 1;
    }
    assert(ov.take(ov.len() as int) =~= ov);
}

// ---------------------------------------------------------------------------
// Growing regions
// ---------------------------------------------------------------------------

/// The state of a flood: the region of each triangle (negative for none),
/// the triangles taken into the current region in order, and the stack.
pub type Flood = (Seq<i32>, Seq<u32>, Seq<u32>);

/// Neighbour `nb`, across a side that is passable when `pass`, joins region
/// `rid` when it is a triangle, unassigned and not blocked.
pub open spec fn flood_push(blocked: Seq<bool>, rid: i32, st: Flood, nb: u32, pass: bool) -> Flood {
    if nb != u32::MAX && st.0[nb as int] < 0 && !blocked[nb as int] && pass {
        (st.0.update(nb as int, rid), st.1, st.2.push(nb))
    } else {
        st
    }
}

/// The top of the stack is taken into the region, then its three
/// neighbours are tried.
pub open spec fn flood_step(nbrs: Seq<[u32; 3]>, pass: Seq<[bool; 3]>, blocked: Seq<bool>, rid: i32, st: Flood) -> Flood {
    let t = st.2.last() as int;
    let st1 = (st.0, st.1.push(t as u32), st.2.drop_last());
    flood_push(blocked, rid, flood_push(blocked, rid, flood_push(blocked, rid, st1, nbrs[t][0], pass[t][0]), nbrs[t][1], pass[t][1]), nbrs[t][2], pass[t][2])
}

pub open spec fn flood(nbrs: Seq<[u32; 3]>, pass: Seq<[bool; 3]>, blocked: Seq<bool>, rid: i32, st: Flood, fuel: nat) -> Flood
    decreases fuel,
{
    if fuel == 0 || st.2.len() == 0 {
        st
    } else {
        flood(nbrs, pass, blocked, rid, flood_step(nbrs, pass, blocked, rid, st), (fuel - 1) as nat)
    }
}

/// The regions grown from the first `k` triangles as seeds, after the
/// regions `rs0` with the assignment `ro0`: an unassigned, unblocked seed
/// starts a new region, which grows across passable sides (last found,
/// first taken).
pub open spec fn regions_upto(nbrs: Seq<[u32; 3]>, pass: Seq<[bool; 3]>, blocked: Seq<bool>, ro0: Seq<i32>, rs0: Seq<Seq<u32>>, k: int) -> (Seq<i32>, Seq<Seq<u32>>)
    decreases k,
{
    if k <= 0 {
        (ro0, rs0)
    } else {
        let (ro, rs) = regions_upto(nbrs, pass, blocked, ro0, rs0, k - 1);
        if ro[k - 1] >= 0 || blocked[k - 1] {
            (ro, rs)
        } else {
            let rid = rs.len() as i32;
            let w = flood(nbrs, pass, blocked, rid, (ro.update(k - 1, rid), Seq::empty(), seq![(k - 1) as u32]), (2 * ro0.len() + 2) as nat);
            (w.0, rs.push(w.1))
        }
    }
}

/// How many of the first `k` triangles have no region.
pub open spec fn unassigned(ro: Seq<i32>, k: int) -> nat
    decreases k,
{
    if k <= 0 {
        0
    } else {
        unassigned(ro, k - 1) + if ro[k - 1] < 0 { 1nat } else { 0nat }
    }
}

proof fn lemma_unassigned_update(ro: Seq<i32>, k: int, x: int, v: i32)
    requires
        0 <= x < k <= ro.len(),
        ro[x] < 0,
        v >= 0,
    ensures
        unassigned(ro.update(x, v), k) + 1 == unassigned(ro, k),
    decreases k,
{
    if k - 1 > x {
        lemma_unassigned_update(ro, k - 1, x, v);
    } else {
        assert(ro.update(x, v).take(k - 1) =~= ro.take(k - 1));
        lemma_unassigned_same(ro.update(x, v), ro, k - 1);
    }
}

proof fn lemma_unassigned_same(a: Seq<i32>, b: Seq<i32>, k: int)
    requires
        0 <= k <= a.len(),
        k <= b.len(),
        forall|i: int| 0 <= i < k ==> a[i] == b[i],
    ensures
        unassigned(a, k) == unassigned(b, k),
    decreases k,
{
    if k > 0 {
        lemma_unassigned_same(a, b, k - 1);
    }
}

proof fn lemma_unassigned_bound(ro: Seq<i32>, k: int)
    requires
        0 <= k,
    ensures
        unassigned(ro, k) <= k,
    decreases k,
{
    if k > 0 {
        lemma_unassigned_bound(ro, k - 1);
    }
}

proof fn lemma_flood_done(nbrs: Seq<[u32; 3]>, pass: Seq<[bool; 3]>, blocked: Seq<bool>, rid: i32, st: Flood, fuel: nat)
    requires
        st.2.len() == 0,
    ensures
        flood(nbrs, pass, blocked, rid, st, fuel) == st,
{
}

/// Region `rid` grown from seed `s`: it takes each neighbour across a
/// passable side that has no region and is not blocked (last found, first
/// taken). Returns its triangles in the order taken.
fn flood_from(
    topo: &MeshTopology,
    passable: &[[bool; 3]],
    blocked: &[bool],
    region_of: &mut Vec<i32>,
    s: usize,
    rid: i32,
) -> (tris: Vec<u32>)
    requires
        old(region_of)@.len() == topo.neighbors@.len(),
        passable@.len() == topo.neighbors@.len(),
        blocked@.len() == topo.neighbors@.len(),
        topo.neighbors@.len() <= u32::MAX,
        forall|u: int, e: int| 0 <= u < topo.neighbors@.len() && 0 <= e < 3 ==> #[trigger] topo.neighbors@[u][e] == u32::MAX
            || (topo.neighbors@[u][e] as int) < topo.neighbors@.len(),
        s < topo.neighbors@.len(),
        old(region_of)@[s as int] < 0,
        rid >= 0,
    ensures
        final(region_of)@.len() == old(region_of)@.len(),
        (final(region_of)@, tris@, Seq::<u32>::empty()) == flood(
            topo.neighbors@,
            passable@,
            blocked@,
            rid,
            (old(region_of)@.update(s as int, rid), Seq::empty(), seq![s as u32]),
            (2 * topo.neighbors@.len() + 2) as nat,
        ),
{
    let ghost nb = topo.neighbors@;
    let ghost ps = passable@;
    let ghost bl = blocked@;
    let ghost n = nb.len();
    let ghost full = (2 * n + 2) as nat;
    let ghost st0: Flood = (old(region_of)@.update(s as int, rid), Seq::empty(), seq![s as u32]);
    region_of.set(s, rid);
    let mut tris: Vec<u32> = Vec::new();
    let mut stack: Vec<u32> = Vec::new();
    stack.push(s as u32);
    let ghost mut fuel: nat = full;
    proof {
        lemma_unassigned_bound(region_of@, n as int);
        assert(stack@ =~= seq![s as u32]);
        assert(tris@ =~= Seq::<u32>::empty());
    }
    while stack.len() > 0
        invariant
            nb == topo.neighbors@,
            ps == passable@,
            bl == blocked@,
            n == nb.len(),
            ps.len() == n,
            bl.len() == n,
            n <= u32::MAX,
            region_of@.len() == n,
            forall|u: int, e: int| 0 <= u < nb.len() && 0 <= e < 3 ==> #[trigger] nb[u][e] == u32::MAX || (nb[u][e] as int) < n,
            forall|q: int| 0 <= q < stack@.len() ==> (#[trigger] stack@[q] as int) < n,
            rid >= 0,
            fuel > 2 * unassigned(region_of@, n as int) + stack@.len(),
            flood(nb, ps, bl, rid, st0, full) == flood(nb, ps, bl, rid, (region_of@, tris@, stack@), fuel),
        decreases 2 * unassigned(region_of@, n as int) + stack@.len(),
    {
        let ghost before: Flood = (region_of@, tris@, stack@);
        let t = stack.pop().unwrap();
        assert(t == before.2.last());
        tris.push(t);
        let row = topo.neighbors[t as usize];
        let prow = passable[t as usize];
        let mut e: usize = 0;
        let ghost mut cur: Flood = (before.0, before.1.push(t), before.2.drop_last());
        assert(stack@ =~= before.2.drop_last());
        while e < 3
            invariant
                nb == topo.neighbors@,
                ps == passable@,
                bl == blocked@,
                n == nb.len(),
                ps.len() == n,
                bl.len() == n,
                region_of@.len() == n,
                forall|u: int, ee: int| 0 <= u < nb.len() && 0 <= ee < 3 ==> #[trigger] nb[u][ee] == u32::MAX || (nb[u][ee] as int) < n,
                forall|q: int| 0 <= q < stack@.len() ==> (#[trigger] stack@[q] as int) < n,
                (t as int) < n,
                row == nb[t as int],
                prow == ps[t as int],
                rid >= 0,
                e <= 3,
                cur == (region_of@, tris@, stack@),
                2 * unassigned(region_of@, n as int) + stack@.len() <= 2 * unassigned(before.0, n as int) + before.2.len() - 1,
                before.2.len() > 0,
                t == before.2.last(),
                e == 0 ==> cur == (before.0, before.1.push(t), before.2.drop_last()),
                e == 1 ==> cur == flood_push(bl, rid, (before.0, before.1.push(t), before.2.drop_last()), row[0], prow[0]),
                e == 2 ==> cur == flood_push(bl, rid, flood_push(bl, rid, (before.0, before.1.push(t), before.2.drop_last()), row[0], prow[0]), row[1], prow[1]),
                e == 3 ==> cur == flood_step(nb, ps, bl, rid, before),
            decreases 3 - e,
        {
            let v = row[e];
            proof {
                lemma_unassigned_bound(region_of@, n as int);
            }
            if v != u32::MAX && region_of[v as usize] < 0 && !blocked[v as usize] && prow[e] {
                proof {
                    lemma_unassigned_update(region_of@, n as int, v as int, rid);
                }
                region_of.set(v as usize, rid);
                stack.push(v);
            }
            proof {
                cur = flood_push(bl, rid, cur, v, prow[e as int]);
                assert(cur.0 =~= region_of@);
                assert(cur.2 =~= stack@);
            }
            e += 1;
        }
        proof {
            assert(before.2.len() > 0);
            assert(flood(nb, ps, bl, rid, before, fuel) == flood(nb, ps, bl, rid, flood_step(nb, ps, bl, rid, before), (fuel - 1) as nat));
            fuel = (fuel - 1) as nat;
        }
    }
    proof {
        lemma_flood_done(nb, ps, bl, rid, (region_of@, tris@, stack@), fuel);
        assert(stack@ =~= Seq::<u32>::empty());
    }
    tris
}

/// Grows regions from every triangle in turn that has no region and is not
/// blocked: each new region (numbered after the existing ones) takes the
/// neighbours across passable sides that have no region and are not
/// blocked, last found first taken, and its triangles are listed in the
/// order taken.
pub fn grow_regions(
    topo: &MeshTopology,
    passable: &[[bool; 3]],
    blocked: &[bool],
    region_of: &mut Vec<i32>,
    regions: &mut Vec<Vec<u32>>,
)
    requires
        old(region_of)@.len() == topo.neighbors@.len(),
        passable@.len() == topo.neighbors@.len(),
        blocked@.len() == topo.neighbors@.len(),
        old(regions)@.len() + topo.neighbors@.len() <= i32::MAX,
        forall|u: int, e: int| 0 <= u < topo.neighbors@.len() && 0 <= e < 3 ==> #[trigger] topo.neighbors@[u][e] == u32::MAX
            || (topo.neighbors@[u][e] as int) < topo.neighbors@.len(),
    ensures
        (final(region_of)@, final(regions).deep_view()) == regions_upto(
            topo.neighbors@,
            passable@,
            blocked@,
            old(region_of)@,
            old(regions).deep_view(),
            topo.neighbors@.len() as int,
        ),
{
    let nt = topo.neighbors.len();
    let ghost ro0 = region_of@;
    let ghost rs0 = regions.deep_view();
    let mut seed: usize = 0;
    while seed < nt
        invariant
            nt == topo.neighbors@.len(),
            seed <= nt,
            ro0.len() == nt,
            passable@.len() == nt,
            blocked@.len() == nt,
            rs0.len() + nt <= i32::MAX,
            forall|u: int, e: int| 0 <= u < topo.neighbors@.len() && 0 <= e < 3 ==> #[trigger] topo.neighbors@[u][e] == u32::MAX
                || (topo.neighbors@[u][e] as int) < topo.neighbors@.len(),
            (region_of@, regions.deep_view()) == regions_upto(topo.neighbors@, passable@, blocked@, ro0, rs0, seed as int),
            region_of@.len() == nt,
            regions@.len() <= rs0.len() + seed,
        decreases nt - seed,
    {
        if region_of[seed] >= 0 || blocked[seed] {
            seed += 1;
            continue;
        }
        let rid = regions.len() as i32;
        let tris = flood_from(topo, passable, blocked, region_of, seed, rid);
        let ghost before = regions.deep_view();
        let ghost rv = regions@;
        let ghost tv = tris@;
        regions.push(tris);
        proof {
            assert forall|i: int| 0 <= i < regions@.len() implies #[trigger] regions.deep_view()[i] == before.push(tv)[i] by {
                if i < rv.len() {
                    assert(regions@[i] == rv[i]);
                }
            }
            assert(regions.deep_view() =~= before.push(tv));
        }
        seed += 1;
    }
}

} // verus!
