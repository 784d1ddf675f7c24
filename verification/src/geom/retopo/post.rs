//! The sides of the polygon faces, and the interior vertices whose valence
//! is not four.
use vstd::prelude::*;
use rayon::slice::ParallelSliceMut;
use crate::geom::boundary::{key_code, key_code_exec};
use crate::geom::repair::lemma_filter_insert;
use crate::sorting::{key_count, lemma_block_count, lemma_perm_filter_len, sorted_by_key, with_key};

verus! {

broadcast use {vstd::seq_lib::group_to_multiset_ensures, vstd::multiset::group_multiset_axioms};

/// Side `c` of face `f`: the key of its edge, and the face.
pub open spec fn side(faces: Seq<Seq<u32>>, f: int, c: int) -> (u64, u32) {
    (key_code(faces[f][c], faces[f][(c + 1) % (faces[f].len() as int)]), f as u32)
}

/// The sides of the first `k` faces, face by face, corner by corner.
pub open spec fn face_sides(faces: Seq<Seq<u32>>, k: int) -> Seq<(u64, u32)>
    decreases k,
{
    if k <= 0 {
        Seq::empty()
    } else {
        face_sides(faces, k - 1) + Seq::new(faces[k - 1].len(), |c: int| side(faces, k - 1, c))
    }
}

/// The pairs ascend: by key, then by face.
pub open spec fn pairs_sorted(s: Seq<(u64, u32)>) -> bool {
    forall|i: int, j: int| 0 <= i <= j < s.len() ==> s[i].0 < s[j].0 || (s[i].0 == s[j].0 && s[i].1 <= s[j].1)
}

/// `rayon::slice::ParallelSliceMut::par_sort_unstable` on pairs: the pairs
/// are reordered, none added or lost, so that they ascend in the order of
/// tuples (by key, then by face).
#[verifier::external_body]
fn par_sort_pairs(v: &mut Vec<(u64, u32)>)
    ensures
        final(v)@.to_multiset() == old(v)@.to_multiset(),
        pairs_sorted(final(v)@),
{
    v.par_sort_unstable();
}

/// The sides of all faces as (edge key, face), sorted.
pub fn face_edges(faces: &Vec<Vec<u32>>) -> (r: Vec<(u64, u32)>)
    ensures
        r@.to_multiset() == face_sides(faces.deep_view(), faces@.len() as int).to_multiset(),
        pairs_sorted(r@),
{
    let ghost fv = faces.deep_view();
    let mut edges: Vec<(u64, u32)> = Vec::new();
    let mut f: usize = 0;
    while f < faces.len()
        invariant
            fv == faces.deep_view(),
            f <= faces@.len(),
            edges@ == face_sides(fv, f as int),
        decreases faces@.len() - f,
    {
        let face = &faces[f];
        let k = face.len();
        assert(face@ == fv[f as int]);
        let ghost before = edges@;
        let mut c: usize = 0;
        while c < k
            invariant
                face@ == fv[f as int],
                k == face@.len(),
                c <= k,
                edges@ == before + Seq::new(c as nat, |q: int| side(fv, f as int, q)),
            decreases k - c,
        {
            let key = key_code_exec(face[c], face[(c + 1) % k]);
            edges.push((key, f as u32));
            c += 1;
            assert(edges@ =~= before + Seq::new(c as nat, |q: int| side(fv, f as int, q)));
        }
        f += 1;
        assert(edges@ =~= face_sides(fv, f as int));
    }
    par_sort_pairs(&mut edges);
    edges
}

/// The smaller and the larger vertex of an edge key.
pub open spec fn key_lo(k: u64) -> int {
    k as int / 0x1_0000_0000
}

pub open spec fn key_hi(k: u64) -> int {
    k as int % 0x1_0000_0000
}

/// The distinct edge keys of the faces.
pub open spec fn face_keys(sides: Seq<(u64, u32)>) -> Set<u64> {
    Set::new(|k: u64| exists|x: int| 0 <= x < sides.len() && sides[x].0 == k)
}

pub open spec fn lo_is(v: int) -> spec_fn(u64) -> bool {
    |k: u64| key_lo(k) == v
}

pub open spec fn hi_is(v: int) -> spec_fn(u64) -> bool {
    |k: u64| key_hi(k) == v
}

/// The number of edges at vertex `v` (an edge from `v` to itself counts
/// twice).
pub open spec fn valence(sides: Seq<(u64, u32)>, v: int) -> nat {
    face_keys(sides).filter(lo_is(v)).len() + face_keys(sides).filter(hi_is(v)).len()
}

/// Vertex `v` lies on an edge that only one face side has.
pub open spec fn on_boundary(sides: Seq<(u64, u32)>, v: int) -> bool {
    exists|k: u64|
        #[trigger] face_keys(sides).contains(k) && key_count(sides, k) == 1 && (key_lo(k) == v || key_hi(k) == v)
}

/// How many of the vertices below `v` are interior and of a valence other
/// than four.
pub open spec fn irregular_below(sides: Seq<(u64, u32)>, v: int) -> nat
    decreases v,
{
    if v <= 0 {
        0
    } else {
        irregular_below(sides, v - 1) + if !on_boundary(sides, v - 1) && valence(sides, v - 1) != 4 {
            1nat
        } else {
            0nat
        }
    }
}

proof fn lemma_key_parts(a: u32, b: u32)
    ensures
        key_lo(key_code(a, b)) == if a < b { a } else { b },
        key_hi(key_code(a, b)) == if a < b { b } else { a },
{
    let (lo, hi) = if a < b { (a as int, b as int) } else { (b as int, a as int) };
    assert(lo * 0x1_0000_0000 + hi <= u64::MAX) by (nonlinear_arith)
        requires
            0 <= lo <= u32::MAX,
            0 <= hi <= u32::MAX,
    ;
    assert(key_code(a, b) as int == lo * 0x1_0000_0000 + hi);
    assert((lo * 0x1_0000_0000 + hi) / 0x1_0000_0000 == lo && (lo * 0x1_0000_0000 + hi) % 0x1_0000_0000 == hi)
        by (nonlinear_arith)
        requires
            0 <= lo <= u32::MAX,
            0 <= hi <= u32::MAX,
    ;
}

/// Every side of the faces joins two vertices below `nv`.
proof fn lemma_side_vertices(faces: Seq<Seq<u32>>, k: int, nv: int, x: int)
    requires
        0 <= k <= faces.len(),
        forall|f: int, c: int| 0 <= f < faces.len() && 0 <= c < faces[f].len() ==> #[trigger] faces[f][c] < nv,
        0 <= x < face_sides(faces, k).len(),
    ensures
        key_lo(face_sides(faces, k)[x].0) < nv,
        key_hi(face_sides(faces, k)[x].0) < nv,
    decreases k,
{
    let pre = face_sides(faces, k - 1);
    if x < pre.len() {
        lemma_side_vertices(faces, k - 1, nv, x);
        assert(face_sides(faces, k)[x] == pre[x]);
    } else {
        let c = x - pre.len();
        let n = faces[k - 1].len() as int;
        assert(face_sides(faces, k)[x] == side(faces, k - 1, c));
        let a = faces[k - 1][c];
        let b = faces[k - 1][(c + 1) % n];
        assert(0 <= (c + 1) % n < n);
        assert(a < nv && b < nv);
        lemma_key_parts(a, b);
    }
}

/// How many interior vertices (on no edge that only one face side has) of
/// the `nv` vertices have a valence other than four, in a mesh of polygon
/// faces.
pub fn irregular_vertices(faces: &Vec<Vec<u32>>, nv: usize) -> (r: usize)
    requires
        forall|f: int, c: int| 0 <= f < faces@.len() && 0 <= c < faces@[f]@.len() ==> #[trigger] faces@[f]@[c] < nv,
        2 * face_sides(faces.deep_view(), faces@.len() as int).len() <= usize::MAX,
    ensures
        r == irregular_below(face_sides(faces.deep_view(), faces@.len() as int), nv as int),
{
    let ghost fv = faces.deep_view();
    let ghost all = face_sides(fv, fv.len() as int);
    let edges = face_edges(faces);
    let ghost s = edges@;
    let n = edges.len();
    proof {
        assert forall|f: int, c: int| 0 <= f < fv.len() && 0 <= c < fv[f].len() implies #[trigger] fv[f][c] < nv by {
            assert(fv[f][c] == faces@[f]@[c]);
        }
        assert forall|key: u64| key_count(s, key) == key_count(all, key) by {
            lemma_perm_filter_len(s, all, with_key::<u32>(key));
        }
        assert forall|x: int| 0 <= x < s.len() implies key_lo(#[trigger] s[x].0) < nv && key_hi(s[x].0) < nv by {
            assert(s.contains(s[x]));
            assert(all.to_multiset().count(s[x]) > 0);
            let y = choose|y: int| 0 <= y < all.len() && all[y] == s[x];
            lemma_side_vertices(fv, fv.len() as int, nv as int, y);
        }
        assert(sorted_by_key(s));
    }
    let mut degree: Vec<usize> = Vec::new();
    let mut boundary: Vec<bool> = Vec::new();
    while degree.len() < nv
        invariant
            degree@.len() <= nv,
            boundary@.len() == degree@.len(),
            forall|v: int| 0 <= v < degree@.len() ==> #[trigger] degree@[v] == 0 && !boundary@[v],
        decreases nv - degree@.len(),
    {
        degree.push(0);
        boundary.push(false);
    }
    let ghost mut keys: Set<u64> = Set::empty();
    proof {
        assert forall|v: int| 0 <= v < nv implies #[trigger] degree@[v] == keys.filter(lo_is(v)).len() + keys.filter(hi_is(v)).len() by {
            assert(keys.filter(lo_is(v)) =~= Set::<u64>::empty());
            assert(keys.filter(hi_is(v)) =~= Set::<u64>::empty());
        }
        assert(s.len() == all.len()) by {
            assert(s.to_multiset().len() == all.to_multiset().len());
        }
        assert forall|v: int| 0 <= v < nv implies (#[trigger] boundary@[v] <==> exists|key: u64|
            #[trigger] keys.contains(key) && key_count(all, key) == 1 && (key_lo(key) == v || key_hi(key) == v)) by {
            assert(degree@[v] == 0);
        }
    }
    let mut i: usize = 0;
    while i < n
        invariant
            s == edges@,
            n == s.len(),
            2 * n <= usize::MAX,
            sorted_by_key(s),
            forall|x: int| 0 <= x < s.len() ==> key_lo(#[trigger] s[x].0) < nv && key_hi(s[x].0) < nv,
            forall|key: u64| key_count(s, key) == key_count(all, key),
            i <= n,
            0 < i < n ==> s[i - 1].0 < s[i as int].0,
            keys.finite(),
            keys.len() <= i,
            forall|key: u64| #[trigger] keys.contains(key) <==> exists|x: int| 0 <= x < i && s[x].0 == key,
            degree@.len() == nv,
            boundary@.len() == nv,
            forall|v: int| 0 <= v < nv ==> #[trigger] degree@[v] == keys.filter(lo_is(v)).len() + keys.filter(hi_is(v)).len(),
            forall|v: int|
                0 <= v < nv ==> (#[trigger] boundary@[v] <==> exists|key: u64|
                    #[trigger] keys.contains(key) && key_count(all, key) == 1 && (key_lo(key) == v || key_hi(key) == v)),
        decreases n - i,
    {
        let k = edges[i].0;
        let mut j = i + 1;
        while j < n && edges[j].0 == k
            invariant
                i < j <= n,
                n == edges@.len(),
                k == s[i as int].0,
                s == edges@,
                forall|x: int| i <= x < j ==> (#[trigger] s[x]).0 == k,
            decreases n - j,
        {
            j += 1;
        }
        let ghost old_keys = keys;
        let ghost old_val = degree@;
        let ghost old_bnd = boundary@;
        proof {
            lemma_block_count(s, i as int, j as int, k);
            if j < n {
                assert(s[i as int].0 <= s[j as int].0);
            }
            assert(!keys.contains(k)) by {
                if keys.contains(k) {
                    let x = choose|x: int| 0 <= x < i && s[x].0 == k;
                    assert(s[x].0 <= s[i - 1].0);
                }
            }
            vstd::set::axiom_set_insert_len(keys, k);
            keys = keys.insert(k);
            assert forall|v: int| 0 <= v < nv implies #[trigger] keys.filter(lo_is(v)).len() + keys.filter(hi_is(v)).len()
                == old_keys.filter(lo_is(v)).len() + old_keys.filter(hi_is(v)).len() + (if key_lo(k) == v { 1int } else { 0int })
                + (if key_hi(k) == v { 1int } else { 0int }) by {
                lemma_filter_insert(old_keys, k, lo_is(v));
                lemma_filter_insert(old_keys, k, hi_is(v));
            }
            assert forall|key: u64| #[trigger] keys.contains(key) <==> exists|x: int| 0 <= x < j && s[x].0 == key by {
                if key == k {
                    assert(s[i as int].0 == key);
                }
                if exists|x: int| 0 <= x < j && s[x].0 == key {
                    let x = choose|x: int| 0 <= x < j && s[x].0 == key;
                    if x >= i {
                        assert(s[x].0 == k);
                    } else {
                        assert(old_keys.contains(key));
                    }
                }
            }
        }
        assert(key_lo(s[i as int].0) < nv && key_hi(s[i as int].0) < nv);
        let a = (k / 0x1_0000_0000) as usize;
        let b = (k % 0x1_0000_0000) as usize;
        assert(a as int == key_lo(k) && b as int == key_hi(k));
        assert(old_keys.filter(lo_is(a as int)).len() <= old_keys.len()) by {
            old_keys.lemma_len_filter(lo_is(a as int));
        }
        assert(old_keys.filter(hi_is(a as int)).len() <= old_keys.len()) by {
            old_keys.lemma_len_filter(hi_is(a as int));
        }
        assert(old_keys.filter(lo_is(b as int)).len() <= old_keys.len()) by {
            old_keys.lemma_len_filter(lo_is(b as int));
        }
        assert(old_keys.filter(hi_is(b as int)).len() <= old_keys.len()) by {
            old_keys.lemma_len_filter(hi_is(b as int));
        }
        let va = degree[a] + 1;
        degree.set(a, va);
        let vb = degree[b] + 1;
        degree.set(b, vb);
        let count = j - i;
        if count == 1 {
            boundary.set(a, true);
            boundary.set(b, true);
        }
        proof {
            assert forall|v: int| 0 <= v < nv implies #[trigger] degree@[v] == keys.filter(lo_is(v)).len() + keys.filter(hi_is(v)).len() by {
                assert(old_val[v] == old_keys.filter(lo_is(v)).len() + old_keys.filter(hi_is(v)).len());
            }
            assert forall|v: int| 0 <= v < nv implies (#[trigger] boundary@[v] <==> exists|key: u64|
                #[trigger] keys.contains(key) && key_count(all, key) == 1 && (key_lo(key) == v || key_hi(key) == v)) by {
                if old_bnd[v] {
                    let key = choose|key: u64| #[trigger] old_keys.contains(key) && key_count(all, key) == 1 && (key_lo(key) == v
                        || key_hi(key) == v);
                    assert(keys.contains(key));
                }
                if count == 1 && (v == a as int || v == b as int) {
                    assert(keys.contains(k));
                }
                if exists|key: u64| #[trigger] keys.contains(key) && key_count(all, key) == 1 && (key_lo(key) == v || key_hi(key) == v) {
                    let key = choose|key: u64| #[trigger] keys.contains(key) && key_count(all, key) == 1 && (key_lo(key) == v
                        || key_hi(key) == v);
                    if key != k {
                        assert(old_keys.contains(key));
                    }
                }
            }
        }
        i = j;
    }
    proof {
        assert(keys =~= face_keys(all)) by {
            assert forall|key: u64| keys.contains(key) <==> face_keys(all).contains(key) by {
                if keys.contains(key) {
                    let x = choose|x: int| 0 <= x < n && s[x].0 == key;
                    assert(s.contains(s[x]));
                    assert(all.to_multiset().count(s[x]) > 0);
                    let y = choose|y: int| 0 <= y < all.len() && all[y] == s[x];
                }
                if face_keys(all).contains(key) {
                    let y = choose|y: int| 0 <= y < all.len() && all[y].0 == key;
                    assert(all.contains(all[y]));
                    assert(s.to_multiset().count(all[y]) > 0);
                    let x = choose|x: int| 0 <= x < s.len() && s[x] == all[y];
                }
            }
        }
    }
    let mut c: usize = 0;
    let mut v: usize = 0;
    while v < nv
        invariant
            v <= nv,
            c <= v,
            degree@.len() == nv,
            boundary@.len() == nv,
            forall|w: int| 0 <= w < nv ==> #[trigger] degree@[w] == valence(all, w),
            forall|w: int| 0 <= w < nv ==> (#[trigger] boundary@[w] <==> on_boundary(all, w)),
            c == irregular_below(all, v as int),
        decreases nv - v,
    {
        if !boundary[v] && degree[v] != 4 {
            c += 1;
        }
        v += 1;
    }
    c
}

} // verus!
