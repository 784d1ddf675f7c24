//! Rim labels of a guided hole fill: every rim edge carries the label of the
//! face group it borders. Runs of equal labels along the (cyclic) rim are
//! the rim arcs of the surfaces that meet at the hole; runs that are too
//! short to rebuild a surface are merged into their neighbours.
use vstd::prelude::*;

pub mod creases;
pub mod patch;
pub mod rim;

verus! {

/// Position `x` of `0..2n` folded into `0..n`.
pub open spec fn wrap(x: int, n: int) -> int {
    if x < n {
        x
    } else {
        x - n
    }
}

/// A rim edge whose label differs from that of the edge before it (the
/// edge before edge 0 is the last edge).
pub open spec fn is_boundary(lab: Seq<i32>, i: int) -> bool {
    lab[i] != lab[if i == 0 {
        lab.len() - 1
    } else {
        i - 1
    }]
}

pub open spec fn has_boundary(lab: Seq<i32>) -> bool {
    exists|i: int| 0 <= i < lab.len() && is_boundary(lab, i)
}

/// `r` are the runs of equal labels of the cyclic rim `lab`, as
/// `(first edge, length)`, starting with the run at the first label
/// change and going around the rim once. A rim without label change is one
/// run `(0, n)`.
pub open spec fn runs_of_rim(lab: Seq<i32>, r: Seq<(usize, usize)>) -> bool {
    let n = lab.len() as int;
    if !has_boundary(lab) {
        r == seq![(0usize, n as usize)]
    } else {
        &&& r.len() > 0
        &&& forall|i: int| 0 <= i < r[0].0 ==> !is_boundary(lab, i)
        &&& forall|j: int|
            0 <= j < r.len() ==> {
                &&& (#[trigger] r[j]).0 < n
                &&& r[j].1 >= 1
                &&& is_boundary(lab, r[j].0 as int)
                &&& forall|d: int|
                    0 <= d < r[j].1 ==> #[trigger] lab[wrap(r[j].0 + d, n)] == lab[r[j].0 as int]
            }
        &&& forall|j: int| 1 <= j < r.len() ==> #[trigger] r[j].0 == r[j - 1].0 + r[j - 1].1
        &&& r.last().0 + r.last().1 == n + r[0].0
    }
}

/// The runs of equal labels of a rim (there is exactly one list of runs).
pub open spec fn rim_runs(lab: Seq<i32>) -> Seq<(usize, usize)> {
    choose|r: Seq<(usize, usize)>| runs_of_rim(lab, r)
}

/// Slices of `i32` are short enough that twice their length fits `usize`.
pub open spec fn short_rim(lab: Seq<i32>) -> bool {
    lab.len() <= usize::MAX / 4
}

proof fn lemma_mod_small(x: int, n: int)
    requires
        0 < n,
        0 <= x < 2 * n,
    ensures
        x % n == wrap(x, n),
{
    if x < n {
        assert(x % n == x) by (nonlinear_arith)
            requires
                0 <= x < n,
        ;
    } else {
        assert(x % n == x - n) by (nonlinear_arith)
            requires
                n <= x < 2 * n,
        ;
    }
}

proof fn lemma_inside_run_not_boundary(lab: Seq<i32>, r: Seq<(usize, usize)>, j: int, d: int)
    requires
        has_boundary(lab),
        runs_of_rim(lab, r),
        0 <= j < r.len(),
        1 <= d < r[j].1,
    ensures
        !is_boundary(lab, wrap(r[j].0 + d, lab.len() as int)),
{
    let n = lab.len() as int;
    let s = r[j].0 as int;
    assert(r[j].1 <= n) by {
        lemma_run_len(lab, r, j);
    }
    let p = wrap(s + d, n);
    let d1 = d - 1;
    assert(lab[wrap(r[j].0 + d, n)] == lab[r[j].0 as int]);
    assert(lab[wrap(r[j].0 + d1, n)] == lab[r[j].0 as int]);
    let prev = if p == 0 {
        n - 1
    } else {
        p - 1
    };
    assert(prev == wrap(s + d - 1, n));
}

/// Runs are no longer than the rim.
proof fn lemma_run_len(lab: Seq<i32>, r: Seq<(usize, usize)>, j: int)
    requires
        has_boundary(lab),
        runs_of_rim(lab, r),
        0 <= j < r.len(),
    ensures
        r[j].1 <= lab.len(),
        r[j].0 + r[j].1 <= lab.len() + r[0].0,
    decreases r.len() - j,
{
    if j < r.len() - 1 {
        lemma_run_len(lab, r, j + 1);
        assert(r[j + 1].0 == r[j + 1 - 1].0 + r[j + 1 - 1].1);
    }
    assert(r[0].0 <= r[j].0) by {
        lemma_starts_increase(lab, r, j);
    }
}

proof fn lemma_starts_increase(lab: Seq<i32>, r: Seq<(usize, usize)>, j: int)
    requires
        has_boundary(lab),
        runs_of_rim(lab, r),
        0 <= j < r.len(),
    ensures
        r[0].0 + j <= r[j].0,
    decreases j,
{
    if j > 0 {
        lemma_starts_increase(lab, r, j - 1);
        assert(r[j].0 == r[j - 1].0 + r[j - 1].1);
    }
}

/// The end of a run is a label change.
proof fn lemma_run_end_boundary(lab: Seq<i32>, r: Seq<(usize, usize)>, j: int)
    requires
        has_boundary(lab),
        runs_of_rim(lab, r),
        0 <= j < r.len(),
    ensures
        is_boundary(lab, wrap(r[j].0 + r[j].1, lab.len() as int)),
        j < r.len() - 1 ==> wrap(r[j].0 + r[j].1, lab.len() as int) == r[j + 1].0,
        j == r.len() - 1 ==> wrap(r[j].0 + r[j].1, lab.len() as int) == r[0].0,
{
    let n = lab.len() as int;
    if j < r.len() - 1 {
        assert(r[j + 1].0 == r[j + 1 - 1].0 + r[j + 1 - 1].1);
        assert(r[j + 1].0 < n);
    } else {
        assert(r[0].0 < n);
    }
}

/// There is only one list of runs.
proof fn lemma_runs_unique(lab: Seq<i32>, r1: Seq<(usize, usize)>, r2: Seq<(usize, usize)>)
    requires
        runs_of_rim(lab, r1),
        runs_of_rim(lab, r2),
    ensures
        r1 == r2,
{
    if has_boundary(lab) {
        let n = lab.len() as int;
        // Both start at the first label change.
        assert(r1[0].0 == r2[0].0) by {
            if r1[0].0 < r2[0].0 {
                assert(!is_boundary(lab, r1[0].0 as int));
            } else if r2[0].0 < r1[0].0 {
                assert(!is_boundary(lab, r2[0].0 as int));
            }
        }
        lemma_runs_agree(lab, r1, r2, 0);
    }
}

proof fn lemma_runs_agree(lab: Seq<i32>, r1: Seq<(usize, usize)>, r2: Seq<(usize, usize)>, j: int)
    requires
        has_boundary(lab),
        runs_of_rim(lab, r1),
        runs_of_rim(lab, r2),
        0 <= j < r1.len(),
        j < r2.len(),
        r1[j].0 == r2[j].0,
        forall|i: int| 0 <= i < j ==> r1[i] == r2[i],
    ensures
        r1 == r2,
    decreases r1.len() - j,
{
    let n = lab.len() as int;
    let s = r1[j].0 as int;
    let l1 = r1[j].1 as int;
    let l2 = r2[j].1 as int;
    lemma_run_len(lab, r1, j);
    lemma_run_len(lab, r2, j);
    lemma_run_end_boundary(lab, r1, j);
    lemma_run_end_boundary(lab, r2, j);
    if l1 < l2 {
        lemma_inside_run_not_boundary(lab, r2, j, l1);
    } else if l2 < l1 {
        lemma_inside_run_not_boundary(lab, r1, j, l2);
    }
    assert(r1[j] == r2[j]);
    lemma_starts_increase(lab, r1, j);
    lemma_starts_increase(lab, r2, j);
    if j + 1 < r1.len() && j + 1 < r2.len() {
        lemma_runs_agree(lab, r1, r2, j + 1);
    } else if j + 1 < r1.len() {
        // r2 ends at run j, r1 goes on: the start of r1's next run would be n + r[0].0.
        assert(r1[j + 1].0 == r1[j + 1 - 1].0 + r1[j + 1 - 1].1);
        assert(s + l1 == n + r2[0].0);
    } else if j + 1 < r2.len() {
        assert(r2[j + 1].0 == r2[j + 1 - 1].0 + r2[j + 1 - 1].1);
        assert(s + l1 == n + r1[0].0);
    } else {
        assert(r1 =~= r2);
    }
}

/// Index of the edge before edge `i` on a rim of `n` edges.
fn before(i: usize, n: usize) -> (r: usize)
    requires
        i < n,
    ensures
        r == (if i == 0 {
            n - 1
        } else {
            i - 1
        }),
{
    if i == 0 {
        n - 1
    } else {
        i - 1
    }
}

/// Runs of equal labels along the (cyclic) rim as (first edge, length).
pub fn runs_of(lab: &[i32]) -> (r: Vec<(usize, usize)>)
    requires
        short_rim(lab@),
    ensures
        runs_of_rim(lab@, r@),
        r@ == rim_runs(lab@),
{
    let n = lab.len();
    let ghost l = lab@;
    let mut first: usize = 0;
    while first < n && lab[first] == lab[before(first, n)]
        invariant
            first <= n == l.len(),
            l == lab@,
            forall|i: int| 0 <= i < first ==> !is_boundary(l, i),
        decreases n - first,
    {
        first += 1;
    }
    if first == n {
        let r = vec![(0usize, n)];
        proof {
            assert(r@ =~= seq![(0usize, n)]);
            lemma_runs_unique(l, r@, rim_runs(l));
        }
        return r;
    }
    let mut runs: Vec<(usize, usize)> = Vec::new();
    let mut start: usize = first;
    let mut len: usize = 0;
    let mut k: usize = 0;
    while k < n
        invariant
            short_rim(l),
            l == lab@,
            n == l.len(),
            first < n,
            is_boundary(l, first as int),
            forall|i: int| 0 <= i < first ==> !is_boundary(l, i),
            k <= n,
            start < n,
            is_boundary(l, start as int),
            runs@.len() > 0 ==> runs@[0].0 == first,
            runs@.len() == 0 ==> start == first,
            k == 0 ==> len == 0,
            k > 0 ==> len >= 1,
            start + len == first + k,
            runs@.len() > 0 ==> runs@.last().0 + runs@.last().1 == start,
            forall|d: int| 0 <= d < len ==> #[trigger] l[wrap(start + d, n as int)] == l[start as int],
            forall|j: int|
                0 <= j < runs@.len() ==> {
                    &&& (#[trigger] runs@[j]).0 < n
                    &&& runs@[j].1 >= 1
                    &&& is_boundary(l, runs@[j].0 as int)
                    &&& forall|d: int|
                        0 <= d < runs@[j].1 ==> #[trigger] l[wrap(runs@[j].0 + d, n as int)]
                            == l[runs@[j].0 as int]
                },
            forall|j: int| 1 <= j < runs@.len() ==> #[trigger] runs@[j].0 == runs@[j - 1].0 + runs@[j - 1].1,
        decreases n - k,
    {
        proof {
            lemma_mod_small(first + k, n as int);
        }
        let i = (first + k) % n;
        assert(i == wrap(first + k, n as int));
        if k > 0 && lab[i] != lab[before(i, n)] {
            proof {
                assert(is_boundary(l, i as int));
                if first + k >= n {
                    assert(i < first);
                }
                assert(i == start + len);
            }
            let ghost old_runs = runs@;
            runs.push((start, len));
            proof {
                assert(runs@.last() == (start, len));
                assert forall|j: int| 1 <= j < runs@.len() implies #[trigger] runs@[j].0
                    == runs@[j - 1].0 + runs@[j - 1].1 by {
                    assert(runs@[j - 1] == old_runs[j - 1]);
                    if j < old_runs.len() {
                        assert(runs@[j] == old_runs[j]);
                    }
                }
                assert forall|j: int| 0 <= j < runs@.len() implies {
                    &&& (#[trigger] runs@[j]).0 < n
                    &&& runs@[j].1 >= 1
                    &&& is_boundary(l, runs@[j].0 as int)
                    &&& forall|d: int|
                        0 <= d < runs@[j].1 ==> #[trigger] l[wrap(runs@[j].0 + d, n as int)]
                            == l[runs@[j].0 as int]
                } by {
                    if j < old_runs.len() {
                        assert(runs@[j] == old_runs[j]);
                    }
                }
            }
            start = i;
            len = 0;
            assert(wrap(start + 0, n as int) == start);
        } else if k > 0 {
            proof {
                let p = if i == 0 {
                    n - 1
                } else {
                    i - 1
                };
                let d1 = len - 1;
                assert(p == wrap(start + d1, n as int));
                assert(l[wrap(start + d1, n as int)] == l[start as int]);
                assert(l[i as int] == l[p]);
                assert(l[wrap(start + len, n as int)] == l[start as int]);
            }
        } else {
            assert(wrap(start + len, n as int) == start);
        }
        len += 1;
        k += 1;
    }
    let ghost old_runs = runs@;
    runs.push((start, len));
    proof {
        let r = runs@;
        assert(r[0].0 == first);
        assert forall|j: int| 1 <= j < r.len() implies #[trigger] r[j].0 == r[j - 1].0 + r[j - 1].1 by {
            assert(r[j - 1] == old_runs[j - 1]);
            if j < old_runs.len() {
                assert(r[j] == old_runs[j]);
            }
        }
        assert forall|j: int| 0 <= j < r.len() implies {
            &&& (#[trigger] r[j]).0 < n
            &&& r[j].1 >= 1
            &&& is_boundary(l, r[j].0 as int)
            &&& forall|d: int|
                0 <= d < r[j].1 ==> #[trigger] l[wrap(r[j].0 + d, n as int)] == l[r[j].0 as int]
        } by {
            if j < old_runs.len() {
                assert(r[j] == old_runs[j]);
            }
        }
        assert(has_boundary(l));
        assert(runs_of_rim(l, r));
        lemma_runs_unique(l, r, rim_runs(l));
    }
    runs
}

/// Position of edge `p` counted from edge `start` along the rim.
pub open spec fn offset_from(p: int, start: int, n: int) -> int {
    if p >= start {
        p - start
    } else {
        p + n - start
    }
}

/// The label a run takes when it is absorbed: its neighbours' label, the
/// longer neighbour's (the one before on a tie) when they differ.
pub open spec fn absorb_target(lab: Seq<i32>, runs: Seq<(usize, usize)>, ri: int) -> i32 {
    let k = runs.len() as int;
    let before = runs[if ri == 0 {
        k - 1
    } else {
        ri - 1
    }];
    let after = runs[if ri == k - 1 {
        0
    } else {
        ri + 1
    }];
    let lb = lab[before.0 as int];
    let la = lab[after.0 as int];
    if lb == la || before.1 >= after.1 {
        lb
    } else {
        la
    }
}

/// An absorbed run takes the label of one of its two neighbouring runs;
/// when their labels differ, that of the longer one (the one before on a
/// tie).
pub proof fn lemma_absorb_takes_longer_neighbour(lab: Seq<i32>, runs: Seq<(usize, usize)>, ri: int, bi: int, ai: int)
    requires
        0 <= ri < runs.len(),
        bi == (if ri == 0 { runs.len() - 1 } else { ri - 1 }),
        ai == (if ri == runs.len() - 1 { 0 } else { ri + 1 }),
    ensures
        absorb_target(lab, runs, ri) == lab[runs[bi].0 as int] || absorb_target(lab, runs, ri) == lab[runs[ai].0 as int],
        lab[runs[bi].0 as int] != lab[runs[ai].0 as int] ==> (absorb_target(lab, runs, ri) == lab[runs[bi].0 as int]
            <==> runs[bi].1 >= runs[ai].1),
{
}

/// The rim after run `ri` took the absorb target as its label.
pub open spec fn absorbed(lab: Seq<i32>, runs: Seq<(usize, usize)>, ri: int) -> Seq<i32> {
    let n = lab.len() as int;
    let (start, len) = runs[ri];
    Seq::new(
        lab.len(),
        |p: int|
            if offset_from(p, start as int, n) < len {
                absorb_target(lab, runs, ri)
            } else {
                lab[p]
            },
    )
}

/// Runs whose starts are edges of the rim and whose lengths fit in it.
pub open spec fn runs_fit(lab: Seq<i32>, runs: Seq<(usize, usize)>) -> bool {
    forall|j: int| 0 <= j < runs.len() ==> (#[trigger] runs[j]).0 < lab.len() && runs[j].1 <= lab.len()
}

proof fn lemma_rim_runs_fit(lab: Seq<i32>)
    requires
        lab.len() > 0,
        runs_of_rim(lab, rim_runs(lab)),
    ensures
        runs_fit(lab, rim_runs(lab)),
        rim_runs(lab).len() > 0,
{
    let r = rim_runs(lab);
    if has_boundary(lab) {
        assert forall|j: int| 0 <= j < r.len() implies (#[trigger] r[j]).0 < lab.len() && r[j].1
            <= lab.len() by {
            lemma_run_len(lab, r, j);
        }
    }
}

/// Gives run `ri` the label of its neighbours (the longer neighbour when
/// those differ).
pub fn absorb_run(lab: &mut [i32], runs: &[(usize, usize)], ri: usize)
    requires
        short_rim(old(lab)@),
        runs@.len() > 0,
        ri < runs@.len(),
        runs_fit(old(lab)@, runs@),
    ensures
        final(lab)@ == absorbed(old(lab)@, runs@, ri as int),
{
    let n = lab.len();
    let k = runs.len();
    let (start, len) = runs[ri];
    let bi = if ri == 0 {
        k - 1
    } else {
        ri - 1
    };
    let ai = if ri == k - 1 {
        0
    } else {
        ri + 1
    };
    let b = runs[bi];
    let a = runs[ai];
    let lb = lab[b.0];
    let la = lab[a.0];
    let target = if lb == la || b.1 >= a.1 {
        lb
    } else {
        la
    };
    let ghost old_lab = lab@;
    let mut j: usize = 0;
    while j < len
        invariant
            n == lab@.len() == old_lab.len(),
            short_rim(old_lab),
            start < n,
            len <= n,
            j <= len,
            target == absorb_target(old_lab, runs@, ri as int),
            (start, len) == runs@[ri as int],
            forall|p: int|
                0 <= p < n ==> #[trigger] lab@[p] == if offset_from(p, start as int, n as int) < j {
                    target
                } else {
                    old_lab[p]
                },
        decreases len - j,
    {
        proof {
            lemma_mod_small(start + j, n as int);
        }
        let p = (start + j) % n;
        lab[p] = target;
        j += 1;
    }
    assert(lab@ =~= absorbed(old_lab, runs@, ri as int));
}

/// The run that is merged first: among the runs shorter than `min_edges`,
/// the shortest, the first of them on a tie.
/// An absorbed run takes the label of one of its neighbouring runs.
proof fn lemma_absorbed_labels(lab: Seq<i32>, runs: Seq<(usize, usize)>, ri: int)
    requires
        runs_fit(lab, runs),
        runs.len() > 0,
        0 <= ri < runs.len(),
    ensures
        forall|p: int| 0 <= p < lab.len() ==> lab.contains(#[trigger] absorbed(lab, runs, ri)[p]),
{
    let k = runs.len() as int;
    let bi = if ri == 0 {
        k - 1
    } else {
        ri - 1
    };
    let ai = if ri == k - 1 {
        0
    } else {
        ri + 1
    };
    assert(runs[bi].0 < lab.len());
    assert(runs[ai].0 < lab.len());
    assert forall|p: int| 0 <= p < lab.len() implies lab.contains(#[trigger] absorbed(lab, runs, ri)[p]) by {
        let a = absorbed(lab, runs, ri)[p];
        if a == lab[p] {
            assert(lab[p] == a);
        } else if a == lab[runs[bi].0 as int] {
            assert(lab[runs[bi].0 as int] == a);
        } else {
            assert(lab[runs[ai].0 as int] == a);
        }
    }
}

/// The label changes of the rim.
pub open spec fn boundaries(lab: Seq<i32>) -> Set<int> {
    Set::new(|i: int| 0 <= i < lab.len() && is_boundary(lab, i))
}

proof fn lemma_boundaries_bound(lab: Seq<i32>)
    ensures
        boundaries(lab).finite(),
        boundaries(lab).len() <= lab.len(),
{
    let range = vstd::set_lib::set_int_range(0, lab.len() as int);
    vstd::set_lib::lemma_int_range(0, lab.len() as int);
    assert(boundaries(lab).subset_of(range));
    vstd::set_lib::lemma_len_subset(boundaries(lab), range);
}

proof fn lemma_prev_offset(p: int, s: int, n: int)
    requires
        0 <= p < n,
        0 <= s < n,
    ensures
        0 <= offset_from(p, s, n) < n,
        offset_from(p, s, n) == 0 <==> p == s,
        offset_from(p, s, n) >= 1 ==> offset_from(if p == 0 { n - 1 } else { p - 1 }, s, n) == offset_from(p, s, n) - 1,
        offset_from(p, s, n) == 0 ==> offset_from(if p == 0 { n - 1 } else { p - 1 }, s, n) == n - 1,
{
}

/// Run starts strictly increase.
proof fn lemma_starts_strict(lab: Seq<i32>, r: Seq<(usize, usize)>, i: int, j: int)
    requires
        has_boundary(lab),
        runs_of_rim(lab, r),
        0 <= i < j < r.len(),
    ensures
        r[i].0 < r[j].0,
    decreases j - i,
{
    assert(r[j].0 == r[j - 1].0 + r[j - 1].1);
    if i < j - 1 {
        lemma_starts_strict(lab, r, i, j - 1);
    }
}

/// Absorbing a run, when there are at least two, removes a label change
/// and adds none.
proof fn lemma_absorb_fewer_boundaries(lab: Seq<i32>, runs: Seq<(usize, usize)>, ri: int)
    requires
        runs_of_rim(lab, runs),
        runs.len() >= 2,
        0 <= ri < runs.len(),
    ensures
        boundaries(absorbed(lab, runs, ri)).len() < boundaries(lab).len(),
{
    let n = lab.len() as int;
    assert(has_boundary(lab));
    let k = runs.len() as int;
    let bi = if ri == 0 {
        k - 1
    } else {
        ri - 1
    };
    let ai = if ri == k - 1 {
        0
    } else {
        ri + 1
    };
    let s = runs[ri].0 as int;
    let len = runs[ri].1 as int;
    let t = absorb_target(lab, runs, ri);
    let lb = lab[runs[bi].0 as int];
    let la = lab[runs[ai].0 as int];
    let new = absorbed(lab, runs, ri);
    lemma_run_len(lab, runs, ri);
    lemma_run_len(lab, runs, bi);
    lemma_run_end_boundary(lab, runs, ri);
    lemma_run_end_boundary(lab, runs, bi);
    let a = wrap(s + len, n);
    assert(a == runs[ai].0);
    assert(ai != ri);
    assert(runs[ai].0 != runs[ri].0) by {
        if ai < ri {
            lemma_starts_strict(lab, runs, ai, ri);
        } else {
            lemma_starts_strict(lab, runs, ri, ai);
        }
    }
    assert(len < n);
    assert(offset_from(a, s, n) == len);
    // The edge before the run carries the label of the run before.
    let prev_s = if s == 0 {
        n - 1
    } else {
        s - 1
    };
    assert(wrap(runs[bi].0 + runs[bi].1, n) == s);
    assert(lab[prev_s] == lb) by {
        let d = runs[bi].1 - 1;
        assert(lab[wrap(runs[bi].0 + d, n)] == lab[runs[bi].0 as int]);
        assert(wrap(runs[bi].0 + d, n) == prev_s);
    }
    assert(lab[a] == la);
    assert(is_boundary(lab, s));
    assert(is_boundary(lab, a));
    assert(t == lb || (t == la && t != lb));
    let gone = if t == lb {
        s
    } else {
        a
    };
    assert(new.len() == n);
    assert forall|p: int| #[trigger] boundaries(new).contains(p) implies boundaries(lab).remove(gone).contains(p) by {
        let prev = if p == 0 {
            n - 1
        } else {
            p - 1
        };
        lemma_prev_offset(p, s, n);
        let o = offset_from(p, s, n);
        if 1 <= o < len {
            assert(new[p] == t);
            assert(new[prev] == t);
        } else if o == 0 {
            assert(p == s);
            assert(new[p] == t);
            assert(new[prev] == lab[prev]);
        } else if o == len {
            assert(p == a) by {
                lemma_prev_offset(a, s, n);
            }
            assert(new[p] == lab[p]);
            assert(new[prev] == t);
        } else {
            assert(new[p] == lab[p]);
            assert(new[prev] == lab[prev]);
            assert(p != s);
            assert(p != a) by {
                lemma_prev_offset(a, s, n);
            }
        }
    }
    lemma_boundaries_bound(lab);
    lemma_boundaries_bound(new);
    assert(boundaries(new).subset_of(boundaries(lab).remove(gone)));
    vstd::set_lib::lemma_len_subset(boundaries(new), boundaries(lab).remove(gone));
}

pub open spec fn is_pick(runs: Seq<(usize, usize)>, min_edges: int, ri: int) -> bool {
    &&& 0 <= ri < runs.len()
    &&& runs[ri].1 < min_edges
    &&& forall|i: int|
        0 <= i < runs.len() && (#[trigger] runs[i]).1 < min_edges ==> runs[ri].1 <= runs[i].1
            && (runs[i].1 == runs[ri].1 ==> ri <= i)
}

/// The pick, where there is one.
pub open spec fn pick(runs: Seq<(usize, usize)>, min_edges: int) -> int {
    choose|ri: int| is_pick(runs, min_edges, ri)
}

/// The shortest run, the first of them on a tie.
pub open spec fn is_shortest(runs: Seq<(usize, usize)>, ri: int) -> bool {
    &&& 0 <= ri < runs.len()
    &&& forall|i: int|
        0 <= i < runs.len() ==> runs[ri].1 <= (#[trigger] runs[i]).1 && (runs[i].1 == runs[ri].1
            ==> ri <= i)
}

pub open spec fn shortest(runs: Seq<(usize, usize)>) -> int {
    choose|ri: int| is_shortest(runs, ri)
}

/// One merge step: `None` when nothing is left to merge.
pub open spec fn merge_step(lab: Seq<i32>, min_edges: int) -> Option<Seq<i32>> {
    let runs = rim_runs(lab);
    if runs.len() < 2 {
        None
    } else if exists|ri: int| is_pick(runs, min_edges, ri) {
        Some(absorbed(lab, runs, pick(runs, min_edges)))
    } else {
        None
    }
}

/// Up to `steps` merge steps.
pub open spec fn merge_steps(lab: Seq<i32>, min_edges: int, steps: nat) -> Seq<i32>
    decreases steps,
{
    if steps == 0 {
        lab
    } else {
        match merge_step(lab, min_edges) {
            None => lab,
            Some(next) => merge_steps(next, min_edges, (steps - 1) as nat),
        }
    }
}

proof fn lemma_pick_unique(runs: Seq<(usize, usize)>, min_edges: int, a: int, b: int)
    requires
        is_pick(runs, min_edges, a),
        is_pick(runs, min_edges, b),
    ensures
        a == b,
{
    assert(runs[a].1 <= runs[b].1);
    assert(runs[b].1 <= runs[a].1);
}

/// A merge step, where there is one, absorbs a run shorter than
/// `min_edges` that is no longer than any other run shorter than
/// `min_edges`, the first of them on a tie: the shortest short run goes
/// first.
pub proof fn lemma_merge_takes_shortest(lab: Seq<i32>, min_edges: int)
    ensures
        merge_step(lab, min_edges) is Some ==> exists|ri: int|
            {
                &&& 0 <= ri < rim_runs(lab).len()
                &&& rim_runs(lab)[ri].1 < min_edges
                &&& forall|i: int|
                    0 <= i < rim_runs(lab).len() && rim_runs(lab)[i].1 < min_edges ==> rim_runs(lab)[ri].1
                        <= rim_runs(lab)[i].1 && (rim_runs(lab)[i].1 == rim_runs(lab)[ri].1 ==> ri <= i)
                &&& merge_step(lab, min_edges) == Some(absorbed(lab, rim_runs(lab), ri))
            },
{
    let runs = rim_runs(lab);
    if merge_step(lab, min_edges) is Some {
        let ri = pick(runs, min_edges);
        assert(is_pick(runs, min_edges, ri));
        assert forall|i: int|
            0 <= i < runs.len() && runs[i].1 < min_edges implies runs[ri].1 <= runs[i].1 && (runs[i].1 == runs[ri].1
                ==> ri <= i) by {
            assert(is_pick(runs, min_edges, ri));
        }
    }
}

/// Relabels runs shorter than `min_edges` (shortest first) with the label of
/// their neighbours, at most once per rim edge.
pub fn merge_short_runs(lab: &mut [i32], min_edges: usize)
    requires
        short_rim(old(lab)@),
    ensures
        final(lab)@ == merge_steps(old(lab)@, min_edges as int, old(lab)@.len()),
        // Merging only hands out labels that the rim already had.
        forall|p: int| 0 <= p < final(lab)@.len() ==> old(lab)@.contains(#[trigger] final(lab)@[p]),
        // Afterwards no run is shorter than `min_edges`, unless one run is left.
        rim_runs(final(lab)@).len() < 2 || forall|j: int|
            0 <= j < rim_runs(final(lab)@).len() ==> #[trigger] rim_runs(final(lab)@)[j].1 >= min_edges,
{
    let n = lab.len();
    let mut step: usize = 0;
    proof {
        lemma_boundaries_bound(lab@);
    }
    while step < n
        invariant
            n == lab@.len() == old(lab)@.len(),
            short_rim(lab@),
            step <= n,
            boundaries(lab@).finite(),
            boundaries(lab@).len() + step <= n,
            merge_steps(old(lab)@, min_edges as int, n as nat) == merge_steps(
                lab@,
                min_edges as int,
                (n - step) as nat,
            ),
            forall|p: int| 0 <= p < lab@.len() ==> old(lab)@.contains(#[trigger] lab@[p]),
        decreases n - step,
    {
        let runs = runs_of(lab);
        if runs.len() < 2 {
            return;
        }
        let mut best: Option<usize> = None;
        let mut i: usize = 0;
        while i < runs.len()
            invariant
                i <= runs@.len(),
                best matches Some(b) ==> b < i && is_pick(runs@.take(i as int), min_edges as int, b as int),
                best is None ==> forall|x: int| 0 <= x < i ==> (#[trigger] runs@[x]).1 >= min_edges,
            decreases runs@.len() - i,
        {
            if runs[i].1 < min_edges {
                match best {
                    None => {
                        best = Some(i);
                    },
                    Some(b) => {
                        if runs[i].1 < runs[b].1 {
                            best = Some(i);
                        }
                    },
                }
            }
            proof {
                let t = runs@.take(i + 1);
                if let Some(b) = best {
                    assert forall|x: int| 0 <= x < t.len() && (#[trigger] t[x]).1 < min_edges implies t[b as int].1
                        <= t[x].1 && (t[x].1 == t[b as int].1 ==> b <= x) by {
                        assert(t[x] == runs@[x]);
                        if x < i {
                            assert(runs@.take(i as int)[x] == runs@[x]);
                        }
                    }
                }
            }
            i += 1;
        }
        assert(runs@.take(runs@.len() as int) == runs@);
        let ghost l = lab@;
        match best {
            None => {
                assert(!exists|ri: int| is_pick(runs@, min_edges as int, ri));
                return;
            },
            Some(ri) => {
                proof {
                    lemma_rim_runs_fit(l);
                    lemma_pick_unique(runs@, min_edges as int, ri as int, pick(runs@, min_edges as int));
                }
                absorb_run(lab, &runs, ri);
                proof {
                    lemma_absorb_fewer_boundaries(l, runs@, ri as int);
                    lemma_boundaries_bound(lab@);
                    lemma_absorbed_labels(l, runs@, ri as int);
                    assert forall|p: int| 0 <= p < lab@.len() implies old(lab)@.contains(#[trigger] lab@[p]) by {
                        assert(l.contains(absorbed(l, runs@, ri as int)[p]));
                        let q = choose|q: int| 0 <= q < l.len() && l[q] == lab@[p];
                        assert(old(lab)@.contains(l[q]));
                    }
                }
            },
        }
        step += 1;
    }
    proof {
        let l = lab@;
        if has_boundary(l) {
            let b = choose|b: int| 0 <= b < l.len() && is_boundary(l, b);
            assert(boundaries(l).contains(b));
        }
        assert(runs_of_rim(l, seq![(0usize, n)]));
        lemma_runs_unique(l, rim_runs(l), seq![(0usize, n)]);
    }
}

/// Merges the shortest run into its neighbours; false when only one run is
/// left.
pub fn merge_shortest_run(lab: &mut [i32]) -> (merged: bool)
    requires
        short_rim(old(lab)@),
    ensures
        merged == (rim_runs(old(lab)@).len() >= 2),
        merged ==> final(lab)@ == absorbed(old(lab)@, rim_runs(old(lab)@), shortest(rim_runs(old(lab)@))),
        !merged ==> final(lab)@ == old(lab)@,
        // The merged run takes a label that the rim already had.
        forall|p: int| 0 <= p < final(lab)@.len() ==> old(lab)@.contains(#[trigger] final(lab)@[p]),
{
    let runs = runs_of(lab);
    if runs.len() < 2 {
        proof {
            assert forall|p: int| 0 <= p < lab@.len() implies lab@.contains(#[trigger] lab@[p]) by {
            }
        }
        return false;
    }
    let mut ri: usize = 0;
    let mut i: usize = 1;
    while i < runs.len()
        invariant
            1 <= i <= runs@.len(),
            ri < i,
            is_shortest(runs@.take(i as int), ri as int),
        decreases runs@.len() - i,
    {
        if runs[i].1 < runs[ri].1 {
            ri = i;
        }
        proof {
            let t = runs@.take(i + 1);
            assert forall|x: int| 0 <= x < t.len() implies t[ri as int].1 <= (#[trigger] t[x]).1 && (t[x].1
                == t[ri as int].1 ==> ri <= x) by {
                assert(t[x] == runs@[x]);
                if x < i {
                    assert(runs@.take(i as int)[x] == runs@[x]);
                }
            }
        }
        i += 1;
    }
    assert(runs@.take(runs@.len() as int) == runs@);
    proof {
        lemma_rim_runs_fit(lab@);
        let c = shortest(runs@);
        assert(is_shortest(runs@, c));
        assert(runs@[c].1 <= runs@[ri as int].1);
        assert(runs@[ri as int].1 <= runs@[c].1);
        assert(c == ri);
    }
    let ghost l = lab@;
    absorb_run(lab, &runs, ri);
    proof {
        lemma_absorbed_labels(l, runs@, ri as int);
        assert forall|p: int| 0 <= p < lab@.len() implies l.contains(#[trigger] lab@[p]) by {
            assert(l.contains(absorbed(l, runs@, ri as int)[p]));
        }
    }
    true
}

// ---------------------------------------------------------------------------
// Vertex neighbours of a triangle list
// ---------------------------------------------------------------------------

/// Vertex `u` shares one of the first `k` triangles with vertex `v` (at
/// another corner).
pub open spec fn adjacent_in(tris: Seq<[usize; 3]>, k: int, v: int, u: int) -> bool {
    exists|t: int, e: int, d: int|
        0 <= t < k && 0 <= e < 3 && 0 <= d < 3 && e != d && #[trigger] tris[t][e] == v && #[trigger] tris[t][d] == u
}

/// Strictly increasing.
pub open spec fn increasing(l: Seq<usize>) -> bool {
    forall|i: int, j: int| 0 <= i < j < l.len() ==> l[i] < l[j]
}

/// `l` with `x` inserted in order (no change when `x` is already there).
pub(crate) fn insert_sorted(l: &Vec<usize>, x: usize) -> (r: Vec<usize>)
    requires
        increasing(l@),
    ensures
        increasing(r@),
        r@.to_set() == l@.to_set().insert(x),
{
    let mut r: Vec<usize> = Vec::new();
    let mut i: usize = 0;
    while i < l.len() && l[i] < x
        invariant
            i <= l@.len(),
            increasing(l@),
            r@ == l@.take(i as int),
            forall|k: int| 0 <= k < i ==> l@[k] < x,
        decreases l@.len() - i,
    {
        r.push(l[i]);
        i += 1;
        assert(r@ =~= l@.take(i as int));
    }
    let ghost head = r@;
    if i == l.len() || l[i] != x {
        r.push(x);
    }
    let ghost mid = r@;
    let mut j: usize = i;
    while j < l.len()
        invariant
            i <= j <= l@.len(),
            r@ == mid + l@.subrange(i as int, j as int),
        decreases l@.len() - j,
    {
        r.push(l[j]);
        j += 1;
        assert(r@ =~= mid + l@.subrange(i as int, j as int));
    }
    proof {
        assert(l@ =~= head + l@.subrange(i as int, l@.len() as int));
        assert forall|a: int, b: int| 0 <= a < b < r@.len() implies r@[a] < r@[b] by {
            if i < l@.len() && l@[i as int] == x {
                assert(r@ =~= l@);
            } else {
                if b == i {
                    assert(r@[a] == l@[a]);
                } else if a == i && b > i {
                    assert(r@[b] == l@[b - 1]);
                    assert(i < l@.len() ==> x < l@[i as int]);
                    assert(l@[i as int] <= l@[b - 1]);
                } else if b > i && a < i {
                    assert(r@[b] == l@[b - 1]);
                    assert(r@[a] == l@[a]);
                } else if a > i {
                    assert(r@[b] == l@[b - 1]);
                    assert(r@[a] == l@[a - 1]);
                }
            }
        }
        assert forall|y: usize| r@.to_set().contains(y) == l@.to_set().insert(x).contains(y) by {
            if r@.contains(y) {
                let a = choose|a: int| 0 <= a < r@.len() && r@[a] == y;
                if !(i < l@.len() && l@[i as int] == x) && a > i {
                    assert(l@[a - 1] == y);
                } else if !(i < l@.len() && l@[i as int] == x) && a < i {
                    assert(l@[a] == y);
                }
            }
            if l@.contains(y) {
                let a = choose|a: int| 0 <= a < l@.len() && l@[a] == y;
                if i < l@.len() && l@[i as int] == x {
                    assert(r@[a] == y);
                } else if a < i {
                    assert(r@[a] == y);
                } else {
                    assert(r@[a + 1] == y);
                }
            }
            if y == x {
                if i < l@.len() && l@[i as int] == x {
                    assert(r@[i as int] == y);
                } else {
                    assert(r@[i as int] == y);
                }
            }
        }
        assert(r@.to_set() =~= l@.to_set().insert(x));
    }
    r
}

/// Adds `u` to the neighbours of `v`.
fn add_neighbour(adj: &mut Vec<Vec<usize>>, v: usize, u: usize)
    requires
        v < old(adj)@.len(),
        forall|w: int| 0 <= w < old(adj)@.len() ==> increasing(#[trigger] old(adj)@[w]@),
    ensures
        final(adj)@.len() == old(adj)@.len(),
        forall|w: int| 0 <= w < final(adj)@.len() ==> increasing(#[trigger] final(adj)@[w]@),
        forall|w: int| 0 <= w < final(adj)@.len() && w != v ==> #[trigger] final(adj)@[w]@ == old(adj)@[w]@,
        final(adj)@[v as int]@.to_set() == old(adj)@[v as int]@.to_set().insert(u),
{
    let l = insert_sorted(&adj[v], u);
    adj.set(v, l);
}

/// Vertex neighbours (sorted, unique) of every vertex of a triangle list.
pub fn neighbours(count: usize, tris: &[[usize; 3]]) -> (adj: Vec<Vec<usize>>)
    requires
        forall|t: int, e: int| 0 <= t < tris@.len() && 0 <= e < 3 ==> (#[trigger] tris@[t][e]) < count,
    ensures
        adj@.len() == count,
        forall|v: int| 0 <= v < count ==> increasing(#[trigger] adj@[v]@),
        forall|v: int, u: usize| 0 <= v < count ==> (#[trigger] adj@[v]@.contains(u) <==> adjacent_in(
            tris@,
            tris@.len() as int,
            v,
            u as int,
        )),
{
    let mut adj: Vec<Vec<usize>> = Vec::new();
    let mut v: usize = 0;
    while v < count
        invariant
            v <= count,
            adj@.len() == v,
            forall|w: int| 0 <= w < v ==> (#[trigger] adj@[w])@ == Seq::<usize>::empty(),
        decreases count - v,
    {
        adj.push(Vec::new());
        v += 1;
    }
    let mut t: usize = 0;
    while t < tris.len()
        invariant
            t <= tris@.len(),
            adj@.len() == count,
            forall|s: int, e: int| 0 <= s < tris@.len() && 0 <= e < 3 ==> (#[trigger] tris@[s][e]) < count,
            forall|w: int| 0 <= w < count ==> increasing(#[trigger] adj@[w]@),
            forall|w: int, u: usize| 0 <= w < count ==> (#[trigger] adj@[w]@.contains(u) <==> adjacent_in(
                tris@,
                t as int,
                w,
                u as int,
            )),
        decreases tris@.len() - t,
    {
        let tri = tris[t];
        let (a, b, c) = (tri[0], tri[1], tri[2]);
        let ghost before = adj@;
        add_neighbour(&mut adj, a, b);
        add_neighbour(&mut adj, a, c);
        add_neighbour(&mut adj, b, c);
        add_neighbour(&mut adj, b, a);
        add_neighbour(&mut adj, c, a);
        add_neighbour(&mut adj, c, b);
        proof {
            let tt = tris@;
            assert forall|w: int, u: usize| 0 <= w < count implies (#[trigger] adj@[w]@.contains(u) <==> adjacent_in(
                tt,
                t + 1,
                w,
                u as int,
            )) by {
                let pairs = adjacent_now(a, b, c, w, u as int);
                assert(adj@[w]@.to_set().contains(u) == (before[w]@.to_set().contains(u) || pairs));
                if adjacent_in(tt, t + 1, w, u as int) && !adjacent_in(tt, t as int, w, u as int) {
                    let (s, e, d) = choose|s: int, e: int, d: int|
                        0 <= s < t + 1 && 0 <= e < 3 && 0 <= d < 3 && e != d && #[trigger] tt[s][e] == w
                            && #[trigger] tt[s][d] == u;
                    assert(s == t);
                }
                if pairs {
                    if w == a && u == b {
                        assert(tt[t as int][0] == w && tt[t as int][1] == u);
                    } else if w == a && u == c {
                        assert(tt[t as int][0] == w && tt[t as int][2] == u);
                    } else if w == b && u == c {
                        assert(tt[t as int][1] == w && tt[t as int][2] == u);
                    } else if w == b && u == a {
                        assert(tt[t as int][1] == w && tt[t as int][0] == u);
                    } else if w == c && u == a {
                        assert(tt[t as int][2] == w && tt[t as int][0] == u);
                    } else {
                        assert(tt[t as int][2] == w && tt[t as int][1] == u);
                    }
                }
                if adjacent_in(tt, t as int, w, u as int) {
                    let (s, e, d) = choose|s: int, e: int, d: int|
                        0 <= s < t && 0 <= e < 3 && 0 <= d < 3 && e != d && #[trigger] tt[s][e] == w
                            && #[trigger] tt[s][d] == u;
                    assert(0 <= s < t + 1 && tt[s][e] == w && tt[s][d] == u);
                }
            }
        }
        t += 1;
    }
    adj
}

/// `(w, u)` is one of the six ordered pairs of corners of the triangle
/// `(a, b, c)`.
pub open spec fn adjacent_now(a: usize, b: usize, c: usize, w: int, u: int) -> bool {
    ||| (w == a && u == b)
    ||| (w == a && u == c)
    ||| (w == b && u == c)
    ||| (w == b && u == a)
    ||| (w == c && u == a)
    ||| (w == c && u == b)
}


// ---------------------------------------------------------------------------
// Face groups of a patch
// ---------------------------------------------------------------------------

/// The first group with id `gid`, if any.
pub open spec fn group_of(gids: Seq<i32>, gid: i32) -> Option<int> {
    if exists|g: int| 0 <= g < gids.len() && gids[g] == gid {
        Some(choose|g: int| 0 <= g < gids.len() && gids[g] == gid && forall|h: int| 0 <= h < g ==> gids[h] != gid)
    } else {
        None
    }
}

/// The triangles among the first `k` patch triangles (numbered from
/// `first`) that group `g` receives.
pub open spec fn patch_tris_of(gids: Seq<i32>, g: int, first: int, tg: Seq<i32>, k: int) -> Seq<u32>
    decreases k,
{
    if k <= 0 {
        Seq::empty()
    } else if tg[k - 1] >= 0 && group_of(gids, tg[k - 1]) == Some(g) {
        patch_tris_of(gids, g, first, tg, k - 1).push((first + k - 1) as u32)
    } else {
        patch_tris_of(gids, g, first, tg, k - 1)
    }
}

/// The index of the first group with id `gid`.
fn find_group(group_ids: &[i32], gid: i32) -> (r: Option<usize>)
    ensures
        match r {
            Some(g) => g < group_ids@.len() && group_of(group_ids@, gid) == Some(g as int),
            None => group_of(group_ids@, gid) is None,
        },
{
    let mut g: usize = 0;
    while g < group_ids.len()
        invariant
            g <= group_ids@.len(),
            forall|h: int| 0 <= h < g ==> group_ids@[h] != gid,
        decreases group_ids@.len() - g,
    {
        if group_ids[g] == gid {
            proof {
                let gids = group_ids@;
                let c = choose|c: int| 0 <= c < gids.len() && gids[c] == gid && forall|h: int| 0 <= h < c ==> gids[h] != gid;
                if c < g {
                    assert(gids[c] != gid);
                }
                if g < c as usize {
                    assert(gids[g as int] != gid);
                }
            }
            return Some(g);
        }
        g += 1;
    }
    None
}

/// Adds the triangles of an applied patch, numbered from `first_tri`, to
/// the group map `ids` and to the triangle lists of their groups (the
/// first group with the triangle's id; none for an id below zero or that
/// no group has).
#[verifier::spinoff_prover]
pub fn record_patch_groups(
    group_ids: &[i32],
    group_tris: &mut Vec<Vec<u32>>,
    ids: &mut Vec<i32>,
    first_tri: usize,
    tri_groups: &[i32],
)
    requires
        group_ids@.len() == old(group_tris)@.len(),
        first_tri + tri_groups@.len() <= usize::MAX,
    ensures
        final(ids)@ == old(ids)@ + tri_groups@,
        final(group_tris)@.len() == old(group_tris)@.len(),
        forall|g: int|
            0 <= g < group_ids@.len() ==> #[trigger] final(group_tris)@[g]@ == old(group_tris)@[g]@ + patch_tris_of(
                group_ids@,
                g,
                first_tri as int,
                tri_groups@,
                tri_groups@.len() as int,
            ),
{
    let ghost ids0 = ids@;
    let ghost gt0 = group_tris@;
    let mut k: usize = 0;
    while k < tri_groups.len()
        invariant
            group_ids@.len() == gt0.len(),
            group_tris@.len() == gt0.len(),
            first_tri + tri_groups@.len() <= usize::MAX,
            k <= tri_groups@.len(),
            ids@ == ids0 + tri_groups@.take(k as int),
            forall|g: int|
                0 <= g < group_ids@.len() ==> #[trigger] group_tris@[g]@ == gt0[g]@ + patch_tris_of(
                    group_ids@,
                    g,
                    first_tri as int,
                    tri_groups@,
                    k as int,
                ),
        decreases tri_groups@.len() - k,
    {
        let gid = tri_groups[k];
        ids.push(gid);
        assert(ids@ =~= ids0 + tri_groups@.take(k + 1));
        let ghost before = group_tris@;
        if gid >= 0 {
            match find_group(group_ids, gid) {
                Some(g) => {
                    let t = (first_tri + k) as u32;
                    let mut l: Vec<u32> = Vec::new();
                    group_tris.set_and_swap(g, &mut l);
                    l.push(t);
                    group_tris.set_and_swap(g, &mut l);
                    assert forall|h: int| 0 <= h < group_ids@.len() implies #[trigger] group_tris@[h]@ == gt0[h]@ + patch_tris_of(
                        group_ids@,
                        h,
                        first_tri as int,
                        tri_groups@,
                        k + 1,
                    ) by {
                        if h == g as int {
                            assert(group_tris@[h]@ =~= before[h]@.push(t));
                            assert(gt0[h]@ + patch_tris_of(group_ids@, h, first_tri as int, tri_groups@, k as int).push(t)
                                =~= (gt0[h]@ + patch_tris_of(group_ids@, h, first_tri as int, tri_groups@, k as int)).push(t));
                        } else {
                            assert(group_tris@[h] == before[h]);
                        }
                    }
                },
                None => {},
            }
        }
        k += 1;
    }
    assert(tri_groups@.take(tri_groups@.len() as int) =~= tri_groups@);
}
} // verus!
