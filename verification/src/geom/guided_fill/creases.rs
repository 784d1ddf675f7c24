//! Where the creases of a guided fill run. Where the label changes along
//! the rim, an edge between two surfaces enters the hole. Either every pair
//! of labels met is met exactly twice, once each way, and each pair gives a
//! crease from one crossing to the other; or there are three crossings of
//! three different pairs, whose creases meet at one corner inside the hole.
use vstd::prelude::*;

verus! {

/// The rim position before `i` (the rim is cyclic, `n` positions long).
pub open spec fn prev_pos(n: int, i: int) -> int {
    if i == 0 {
        n - 1
    } else {
        i - 1
    }
}

/// The label changes at rim position `i`.
pub open spec fn changes_at(lab: Seq<i32>, i: int) -> bool {
    lab[i] != lab[prev_pos(lab.len() as int, i)]
}

/// The two labels that meet at position `i`, smaller first.
pub open spec fn labels_at(lab: Seq<i32>, i: int) -> (i32, i32) {
    let a = lab[prev_pos(lab.len() as int, i)];
    let b = lab[i];
    if a <= b {
        (a, b)
    } else {
        (b, a)
    }
}

/// Pairs of labels in lexicographic order.
pub open spec fn pair_lt(p: (i32, i32), q: (i32, i32)) -> bool {
    p.0 < q.0 || (p.0 == q.0 && p.1 < q.1)
}

/// The positions among the first `k` where the label changes.
pub open spec fn changes(lab: Seq<i32>, k: int) -> Seq<usize>
    decreases k,
{
    if k <= 0 {
        Seq::empty()
    } else if changes_at(lab, k - 1) {
        changes(lab, k - 1).push((k - 1) as usize)
    } else {
        changes(lab, k - 1)
    }
}

/// The positions among the first `k` where the labels `p` meet.
pub open spec fn changes_with(lab: Seq<i32>, p: (i32, i32), k: int) -> Seq<usize>
    decreases k,
{
    if k <= 0 {
        Seq::empty()
    } else if changes_at(lab, k - 1) && labels_at(lab, k - 1) == p {
        changes_with(lab, p, k - 1).push((k - 1) as usize)
    } else {
        changes_with(lab, p, k - 1)
    }
}

/// The pair of labels that meet at position `t` of the changes.
pub open spec fn met(lab: Seq<i32>, t: usize) -> (i32, i32) {
    labels_at(lab, t as int)
}

/// Every pair of labels that meet on the rim meets exactly twice.
pub open spec fn paired(lab: Seq<i32>) -> bool {
    forall|i: int| 0 <= i < lab.len() && #[trigger] changes_at(lab, i) ==> changes_with(lab, labels_at(lab, i), lab.len() as int).len() == 2
}

/// The two crossings of the labels `p` run once each way: the label
/// entered at one is the label left at the other.
pub open spec fn crossed_both_ways(lab: Seq<i32>, p: (i32, i32)) -> bool {
    let n = lab.len() as int;
    let ts = changes_with(lab, p, n);
    lab[ts[0] as int] == lab[prev_pos(n, ts[1] as int)] && lab[ts[1] as int] == lab[prev_pos(n, ts[0] as int)]
}

/// Three changes of the label, between three different pairs of labels.
pub open spec fn three_way(lab: Seq<i32>) -> bool {
    let cs = changes(lab, lab.len() as int);
    &&& cs.len() == 3
    &&& met(lab, cs[0]) != met(lab, cs[1])
    &&& met(lab, cs[0]) != met(lab, cs[2])
    &&& met(lab, cs[1]) != met(lab, cs[2])
}

/// The crease of the labels `p`: its two crossings and the labels.
pub open spec fn crease_of(lab: Seq<i32>, p: (i32, i32)) -> (usize, usize, i32, i32) {
    let ts = changes_with(lab, p, lab.len() as int);
    (ts[0], ts[1], p.0, p.1)
}

/// How the creases run.
#[derive(Debug, Clone, PartialEq, Eq)]
pub enum CreaseLayout {
    /// One crease per pair of labels, from one crossing to the other:
    /// (first crossing, second crossing, smaller label, larger label), in
    /// the order of the label pairs.
    Paired(Vec<(usize, usize, i32, i32)>),
    /// Three creases from their crossings to one corner inside the hole:
    /// (crossing, smaller label, larger label), in rim order.
    Corner(Vec<(usize, i32, i32)>),
}

proof fn lemma_changes_has(lab: Seq<i32>, k: int, t: usize)
    requires
        0 <= k <= lab.len(),
        lab.len() <= usize::MAX,
    ensures
        changes(lab, k).contains(t) <==> t < k && changes_at(lab, t as int),
        forall|j: int| 0 <= j < changes(lab, k).len() ==> #[trigger] changes(lab, k)[j] < k
            && changes_at(lab, changes(lab, k)[j] as int),
        forall|i: int, j: int| 0 <= i < j < changes(lab, k).len() ==> changes(lab, k)[i] < changes(lab, k)[j],
    decreases k,
{
    if k > 0 {
        lemma_changes_has(lab, k - 1, t);
        let pre = changes(lab, k - 1);
        if changes_at(lab, k - 1) {
            let full = pre.push((k - 1) as usize);
            assert(changes(lab, k) == full);
            if full.contains(t) && !pre.contains(t) {
                let j = choose|j: int| 0 <= j < full.len() && #[trigger] full[j] == t;
                if j < pre.len() {
                    assert(pre[j] == t);
                }
            }
            if t == k - 1 {
                assert(full[pre.len() as int] == t);
            }
            if pre.contains(t) {
                let j = choose|j: int| 0 <= j < pre.len() && #[trigger] pre[j] == t;
                assert(full[j] == t);
            }
        }
    }
}

proof fn lemma_changes_with_has(lab: Seq<i32>, p: (i32, i32), k: int, t: usize)
    requires
        0 <= k <= lab.len(),
        lab.len() <= usize::MAX,
    ensures
        changes_with(lab, p, k).contains(t) <==> t < k && changes_at(lab, t as int) && labels_at(lab, t as int) == p,
        forall|j: int| 0 <= j < changes_with(lab, p, k).len() ==> #[trigger] changes_with(lab, p, k)[j] < k
            && changes_at(lab, changes_with(lab, p, k)[j] as int) && labels_at(lab, changes_with(lab, p, k)[j] as int) == p,
    decreases k,
{
    if k > 0 {
        lemma_changes_with_has(lab, p, k - 1, t);
        let pre = changes_with(lab, p, k - 1);
        if changes_at(lab, k - 1) && labels_at(lab, k - 1) == p {
            let full = pre.push((k - 1) as usize);
            assert(changes_with(lab, p, k) == full);
            if full.contains(t) && !pre.contains(t) {
                let j = choose|j: int| 0 <= j < full.len() && #[trigger] full[j] == t;
                if j < pre.len() {
                    assert(pre[j] == t);
                }
            }
            if t == k - 1 {
                assert(full[pre.len() as int] == t);
            }
            if pre.contains(t) {
                let j = choose|j: int| 0 <= j < pre.len() && #[trigger] pre[j] == t;
                assert(full[j] == t);
            }
        }
    }
}

/// The labels that meet at position `i` (which is on the rim), smaller
/// first.
fn labels_at_exec(lab: &[i32], i: usize) -> (r: (i32, i32))
    requires
        i < lab@.len(),
    ensures
        r == labels_at(lab@, i as int),
{
    let p = if i == 0 { lab.len() - 1 } else { i - 1 };
    let (a, b) = (lab[p], lab[i]);
    if a <= b {
        (a, b)
    } else {
        (b, a)
    }
}

fn changes_exec(lab: &[i32]) -> (r: Vec<usize>)
    ensures
        r@ == changes(lab@, lab@.len() as int),
{
    let n = lab.len();
    let mut out: Vec<usize> = Vec::new();
    let mut i: usize = 0;
    while i < n
        invariant
            i <= n,
            n == lab@.len(),
            out@ == changes(lab@, i as int),
        decreases n - i,
    {
        let p = if i == 0 { n - 1 } else { i - 1 };
        if lab[i] != lab[p] {
            out.push(i);
        }
        i += 1;
    }
    out
}

fn changes_with_exec(lab: &[i32], pr: (i32, i32)) -> (r: Vec<usize>)
    ensures
        r@ == changes_with(lab@, pr, lab@.len() as int),
{
    let n = lab.len();
    let mut out: Vec<usize> = Vec::new();
    let mut i: usize = 0;
    while i < n
        invariant
            i <= n,
            n == lab@.len(),
            out@ == changes_with(lab@, pr, i as int),
        decreases n - i,
    {
        let p = if i == 0 { n - 1 } else { i - 1 };
        if lab[i] != lab[p] {
            let m = labels_at_exec(lab, i);
            if m.0 == pr.0 && m.1 == pr.1 {
                out.push(i);
            }
        }
        i += 1;
    }
    out
}

/// The labels of a crease.
pub open spec fn ckey(c: (usize, usize, i32, i32)) -> (i32, i32) {
    (c.2, c.3)
}

/// `c` lists one crease for each pair of labels that meet on the rim, in
/// the order of the pairs.
pub open spec fn creases_listed(lab: Seq<i32>, c: Seq<(usize, usize, i32, i32)>) -> bool {
    &&& forall|j: int| 0 <= j < c.len() ==> #[trigger] c[j] == crease_of(lab, ckey(c[j]))
        && exists|i: int| 0 <= i < lab.len() && changes_at(lab, i) && labels_at(lab, i) == ckey(c[j])
    &&& forall|j: int, k: int| 0 <= j < k < c.len() ==> pair_lt(ckey(#[trigger] c[j]), ckey(#[trigger] c[k]))
    &&& forall|i: int| 0 <= i < lab.len() && #[trigger] changes_at(lab, i) ==> exists|j: int| 0 <= j < c.len() && ckey(c[j]) == labels_at(lab, i)
}

/// The creases to the corner, one per change of label, in rim order.
pub open spec fn corner_creases(lab: Seq<i32>) -> Seq<(usize, i32, i32)> {
    changes(lab, lab.len() as int).map_values(|t: usize| (t, met(lab, t).0, met(lab, t).1))
}

/// Every pair of labels that meet is crossed once each way.
pub open spec fn all_crossed_both_ways(lab: Seq<i32>) -> bool {
    forall|i: int| 0 <= i < lab.len() && #[trigger] changes_at(lab, i) ==> crossed_both_ways(lab, labels_at(lab, i))
}

/// Change `t` meets labels above `last` in pair order (any, with no `last`).
pub open spec fn is_above(lab: Seq<i32>, t: usize, last: Option<(i32, i32)>) -> bool {
    match last {
        None => true,
        Some(q) => pair_lt(q, met(lab, t)),
    }
}

/// How many of the first `k` changes `cs` meet labels above `last`.
pub open spec fn above(lab: Seq<i32>, cs: Seq<usize>, last: Option<(i32, i32)>, k: int) -> nat
    decreases k,
{
    if k <= 0 {
        0
    } else {
        above(lab, cs, last, k - 1) + if is_above(lab, cs[k - 1], last) {
            1nat
        } else {
            0nat
        }
    }
}

proof fn lemma_above_fewer(lab: Seq<i32>, cs: Seq<usize>, old: Option<(i32, i32)>, new: Option<(i32, i32)>, k: int, y: int)
    requires
        0 <= k <= cs.len(),
        forall|j: int| 0 <= j < cs.len() && is_above(lab, cs[j], new) ==> is_above(lab, cs[j], old),
    ensures
        above(lab, cs, new, k) <= above(lab, cs, old, k),
        0 <= y < k && is_above(lab, cs[y], old) && !is_above(lab, cs[y], new) ==> above(lab, cs, new, k) < above(lab, cs, old, k),
    decreases k,
{
    if k > 0 {
        lemma_above_fewer(lab, cs, old, new, k - 1, y);
    }
}

/// One crease per pair of labels met on the rim, the pairs in order, when
/// every pair is met exactly twice (`cs` being the changes of label).
#[verifier::rlimit(40)]
fn pair_up(lab: &[i32], cs: &Vec<usize>) -> (r: Option<Vec<(usize, usize, i32, i32)>>)
    requires
        cs@ == changes(lab@, lab@.len() as int),
        paired(lab@),
    ensures
        all_crossed_both_ways(lab@) ==> (r matches Some(c) && creases_listed(lab@, c@)),
        !all_crossed_both_ways(lab@) ==> r is None,
{
    let n = lab.len();
    let ghost l = lab@;
    proof {
        assert forall|t: usize| cs@.contains(t) <==> t < n && changes_at(l, t as int) by {
            lemma_changes_has(l, n as int, t);
        }
        lemma_changes_has(l, n as int, 0);
    }
    // One crease per pair of labels, the pairs in order.
    let mut out: Vec<(usize, usize, i32, i32)> = Vec::new();
    let mut last: Option<(i32, i32)> = None;
    loop
        invariant
            n == l.len(),
            l == lab@,
            paired(l),
            forall|t: usize| cs@.contains(t) <==> t < n && changes_at(l, t as int),
            forall|j: int| 0 <= j < cs@.len() ==> #[trigger] cs@[j] < n && changes_at(l, cs@[j] as int),
            forall|j: int| 0 <= j < out@.len() ==> crossed_both_ways(l, ckey(#[trigger] out@[j])),
            forall|j: int| 0 <= j < out@.len() ==> #[trigger] out@[j] == crease_of(l, ckey(out@[j]))
                && exists|i: int| 0 <= i < l.len() && changes_at(l, i) && labels_at(l, i) == ckey(out@[j]),
            forall|j: int, k: int| 0 <= j < k < out@.len() ==> pair_lt(ckey(#[trigger] out@[j]), ckey(#[trigger] out@[k])),
            last is None <==> out@.len() == 0,
            last matches Some(q) ==> q == ckey(out@.last()),
            forall|y: int| 0 <= y < cs@.len() && !is_above(l, #[trigger] cs@[y], last)
                ==> exists|j: int| 0 <= j < out@.len() && ckey(out@[j]) == met(l, cs@[y]),
        ensures
            forall|y: int| 0 <= y < cs@.len() ==> !is_above(l, #[trigger] cs@[y], last),
            forall|j: int| 0 <= j < out@.len() ==> crossed_both_ways(l, ckey(#[trigger] out@[j])),
            forall|j: int| 0 <= j < out@.len() ==> #[trigger] out@[j] == crease_of(l, ckey(out@[j]))
                && exists|i: int| 0 <= i < l.len() && changes_at(l, i) && labels_at(l, i) == ckey(out@[j]),
            forall|j: int, k: int| 0 <= j < k < out@.len() ==> pair_lt(ckey(#[trigger] out@[j]), ckey(#[trigger] out@[k])),
            forall|y: int| 0 <= y < cs@.len() && !is_above(l, #[trigger] cs@[y], last)
                ==> exists|j: int| 0 <= j < out@.len() && ckey(out@[j]) == met(l, cs@[y]),
        decreases above(l, cs@, last, cs@.len() as int),
    {
        // The smallest pair above `last`.
        let mut best: Option<(i32, i32)> = None;
        let mut y: usize = 0;
        while y < cs.len()
            invariant
                y <= cs@.len(),
                n == l.len(),
                l == lab@,
                forall|j: int| 0 <= j < cs@.len() ==> #[trigger] cs@[j] < n && changes_at(l, cs@[j] as int),
                best matches Some(b) ==> exists|z: int| 0 <= z < y && is_above(l, cs@[z], last) && met(l, #[trigger] cs@[z]) == b,
                best matches Some(b) ==> forall|z: int| 0 <= z < y && is_above(l, #[trigger] cs@[z], last) ==> b == met(l, cs@[z]) || pair_lt(b, met(l, cs@[z])),
                best is None ==> forall|z: int| 0 <= z < y ==> !is_above(l, #[trigger] cs@[z], last),
            decreases cs@.len() - y,
        {
            let m = labels_at_exec(lab, cs[y]);
            let up = match last {
                None => true,
                Some(q) => q.0 < m.0 || (q.0 == m.0 && q.1 < m.1),
            };
            if up {
                let better = match best {
                    None => true,
                    Some(b) => m.0 < b.0 || (m.0 == b.0 && m.1 < b.1),
                };
                if better {
                    best = Some(m);
                }
            }
            y += 1;
        }
        let b = match best {
            None => {
                break;
            },
            Some(b) => b,
        };
        let ghost yb = choose|z: int| 0 <= z < cs@.len() && is_above(l, cs@[z], last) && met(l, #[trigger] cs@[z]) == b;
        let ts = changes_with_exec(lab, b);
        proof {
            assert(changes_at(l, cs@[yb] as int));
            assert(changes_with(l, labels_at(l, cs@[yb] as int), l.len() as int).len() == 2);
            lemma_changes_with_has(l, b, n as int, 0);
        }
        let t0 = ts[0];
        let t1 = ts[1];
        let p0 = if t0 == 0 { n - 1 } else { t0 - 1 };
        let p1 = if t1 == 0 { n - 1 } else { t1 - 1 };
        if lab[t0] != lab[p1] || lab[t1] != lab[p0] {
            proof {
                assert(!crossed_both_ways(l, labels_at(l, cs@[yb] as int)));
                assert(!all_crossed_both_ways(l));
            }
            return None;
        }
        let ghost old_last = last;
        let ghost old_out = out@;
        out.push((t0, t1, b.0, b.1));
        last = Some(b);
        proof {
            assert(ckey(out@[out@.len() - 1]) == b);
            assert forall|j: int| 0 <= j < out@.len() implies #[trigger] out@[j] == crease_of(l, ckey(out@[j]))
                && exists|i: int| 0 <= i < l.len() && changes_at(l, i) && labels_at(l, i) == ckey(out@[j]) by {
                if j < old_out.len() {
                    assert(out@[j] == old_out[j]);
                } else {
                    assert(labels_at(l, cs@[yb] as int) == b);
                }
            }
            assert forall|j: int, k: int| 0 <= j < k < out@.len() implies pair_lt(ckey(#[trigger] out@[j]), ckey(#[trigger] out@[k])) by {
                if k < old_out.len() {
                    assert(out@[j] == old_out[j] && out@[k] == old_out[k]);
                } else if j < old_out.len() {
                    assert(out@[j] == old_out[j]);
                    if j < old_out.len() - 1 {
                        assert(pair_lt(ckey(old_out[j]), ckey(old_out[old_out.len() - 1])));
                    }
                }
            }
            assert forall|y2: int| 0 <= y2 < cs@.len() && !is_above(l, #[trigger] cs@[y2], last)
                implies exists|j: int| 0 <= j < out@.len() && ckey(out@[j]) == met(l, cs@[y2]) by {
                if !is_above(l, cs@[y2], old_last) {
                    let j = choose|j: int| 0 <= j < old_out.len() && ckey(old_out[j]) == met(l, cs@[y2]);
                    assert(out@[j] == old_out[j]);
                } else {
                    assert(met(l, cs@[y2]) == b);
                    assert(ckey(out@[old_out.len() as int]) == b);
                }
            }
            assert forall|j: int| 0 <= j < cs@.len() && is_above(l, cs@[j], last) implies is_above(l, cs@[j], old_last) by {
                if let Some(q) = old_last {
                    assert(pair_lt(q, b));
                }
            }
            lemma_above_fewer(l, cs@, old_last, last, cs@.len() as int, yb);
        }
    }
    proof {
        assert forall|i: int| 0 <= i < l.len() && #[trigger] changes_at(l, i) implies crossed_both_ways(l, labels_at(l, i)) by {
            assert(cs@.contains(i as usize));
            let y = choose|y: int| 0 <= y < cs@.len() && cs@[y] == i as usize;
            assert(!is_above(l, cs@[y], last));
            let j = choose|j: int| 0 <= j < out@.len() && ckey(out@[j]) == met(l, cs@[y]);
            assert(crossed_both_ways(l, ckey(out@[j])));
        }
        assert forall|i: int| 0 <= i < l.len() && #[trigger] changes_at(l, i) implies exists|j: int| 0 <= j < out@.len() && ckey(out@[j]) == labels_at(l, i) by {
            assert(cs@.contains(i as usize));
            let y = choose|y: int| 0 <= y < cs@.len() && cs@[y] == i as usize;
            assert(!is_above(l, cs@[y], last));
        }
    }
    Some(out)
}

/// Where the creases of a fill run, from the labels of the rim edges in
/// rim order (rim edge `i` runs from rim vertex `i` to `i + 1`). When every
/// pair of labels that meet is met exactly twice, there is a crease per
/// pair, and each pair must be crossed once each way; otherwise three
/// changes of three different pairs give three creases to one corner.
/// Anything else is `None`: the labels meet in a way no fill is built for.
pub fn crease_layout(lab: &[i32]) -> (r: Option<CreaseLayout>)
    ensures
        paired(lab@) && all_crossed_both_ways(lab@) ==> (r matches Some(CreaseLayout::Paired(c)) && creases_listed(lab@, c@)),
        paired(lab@) && !all_crossed_both_ways(lab@) ==> r is None,
        !paired(lab@) && three_way(lab@) ==> (r matches Some(CreaseLayout::Corner(c)) && c@ == corner_creases(lab@)),
        !paired(lab@) && !three_way(lab@) ==> r is None,
{
    let n = lab.len();
    let cs = changes_exec(lab);
    let ghost l = lab@;
    proof {
        assert forall|t: usize| cs@.contains(t) <==> t < n && changes_at(l, t as int) by {
            lemma_changes_has(l, n as int, t);
        }
        lemma_changes_has(l, n as int, 0);
    }
    // Is every pair met exactly twice?
    let mut two = true;
    let mut x: usize = 0;
    while x < cs.len()
        invariant
            x <= cs@.len(),
            n == l.len(),
            l == lab@,
            forall|j: int| 0 <= j < cs@.len() ==> #[trigger] cs@[j] < n && changes_at(l, cs@[j] as int),
            two <==> forall|j: int| 0 <= j < x ==> changes_with(l, met(l, #[trigger] cs@[j]), n as int).len() == 2,
        decreases cs@.len() - x,
    {
        let m = labels_at_exec(lab, cs[x]);
        let ts = changes_with_exec(lab, m);
        if ts.len() != 2 {
            two = false;
        }
        x += 1;
    }
    proof {
        if two {
            assert forall|i: int| 0 <= i < l.len() && #[trigger] changes_at(l, i) implies changes_with(l, labels_at(l, i), l.len() as int).len() == 2 by {
                assert(cs@.contains(i as usize));
                let j = choose|j: int| 0 <= j < cs@.len() && cs@[j] == i as usize;
                assert(changes_with(l, met(l, cs@[j]), n as int).len() == 2);
            }
        } else {
            let j = choose|j: int| 0 <= j < cs@.len() && changes_with(l, met(l, #[trigger] cs@[j]), n as int).len() != 2;
            assert(changes_at(l, cs@[j] as int));
        }
    }
    if !two {
        if cs.len() == 3 {
            let m0 = labels_at_exec(lab, cs[0]);
            let m1 = labels_at_exec(lab, cs[1]);
            let m2 = labels_at_exec(lab, cs[2]);
            let d01 = m0.0 != m1.0 || m0.1 != m1.1;
            let d02 = m0.0 != m2.0 || m0.1 != m2.1;
            let d12 = m1.0 != m2.0 || m1.1 != m2.1;
            if d01 && d02 && d12 {
                let mut c: Vec<(usize, i32, i32)> = Vec::new();
                c.push((cs[0], m0.0, m0.1));
                c.push((cs[1], m1.0, m1.1));
                c.push((cs[2], m2.0, m2.1));
                assert(c@ =~= corner_creases(l));
                return Some(CreaseLayout::Corner(c));
            }
        }
        return None;
    }
    match pair_up(lab, &cs) {
        Some(out) => Some(CreaseLayout::Paired(out)),
        None => None,
    }
}

} // verus!
