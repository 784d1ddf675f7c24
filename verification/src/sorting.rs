//! Sorting records by an integer key, in parallel, and what a reordering
//! keeps: how many records have a given key.
use vstd::prelude::*;
use vstd::multiset::Multiset;
use rayon::slice::ParallelSliceMut;

verus! {

broadcast use {vstd::multiset::group_multiset_axioms, vstd::seq_lib::group_to_multiset_ensures};

/// The keys never decrease along `s`.
pub open spec fn sorted_by_key<T>(s: Seq<(u64, T)>) -> bool {
    forall|i: int, j: int| 0 <= i <= j < s.len() ==> s[i].0 <= s[j].0
}

/// `rayon::slice::ParallelSliceMut::par_sort_unstable_by_key`, keyed by the
/// first field: the records are reordered (none added or lost) so that the
/// keys never decrease. Which of two records with equal keys comes first is
/// not said.
#[verifier::external_body]
pub(crate) fn par_sort_by_key<T: Send>(v: &mut Vec<(u64, T)>)
    ensures
        final(v)@.to_multiset() == old(v)@.to_multiset(),
        sorted_by_key(final(v)@),
{
    v.par_sort_unstable_by_key(|e| e.0);
}

/// The records of `s` with key `k`.
pub open spec fn with_key<T>(k: u64) -> spec_fn((u64, T)) -> bool {
    |e: (u64, T)| e.0 == k
}

/// How many records of `s` have key `k`.
pub open spec fn key_count<T>(s: Seq<(u64, T)>, k: u64) -> nat {
    s.filter(with_key::<T>(k)).len()
}

proof fn lemma_empty_multiset<A>(s: Seq<A>)
    requires
        s.len() == 0,
    ensures
        s.to_multiset() =~= Multiset::<A>::empty(),
{
    assert forall|v: A| s.to_multiset().count(v) == Multiset::<A>::empty().count(v) by {
        vstd::multiset::axiom_count_le_len(s.to_multiset(), v);
    }
}

/// Filtering commutes with taking the multiset of a sequence.
pub proof fn lemma_filter_multiset<A>(s: Seq<A>, p: spec_fn(A) -> bool)
    ensures
        s.filter(p).to_multiset() =~= s.to_multiset().filter(p),
    decreases s.len(),
{
    reveal(Seq::filter);
    if s.len() == 0 {
        lemma_empty_multiset(s);
        lemma_empty_multiset(s.filter(p));
        assert forall|v: A| s.filter(p).to_multiset().count(v) == s.to_multiset().filter(p).count(v) by {
        }
    } else {
        let t = s.drop_last();
        let a = s.last();
        lemma_filter_multiset(t, p);
        assert(s =~= t.push(a));
        assert(s.to_multiset() =~= t.to_multiset().insert(a));
        if p(a) {
            assert(s.filter(p) == t.filter(p).push(a));
            assert(s.filter(p).to_multiset() =~= t.filter(p).to_multiset().insert(a));
        } else {
            assert(s.filter(p) == t.filter(p));
        }
        assert forall|v: A| s.filter(p).to_multiset().count(v) == s.to_multiset().filter(p).count(v) by {
        }
    }
}

/// Two reorderings of each other have as many elements passing any test.
pub proof fn lemma_perm_filter_len<A>(s: Seq<A>, t: Seq<A>, p: spec_fn(A) -> bool)
    requires
        s.to_multiset() == t.to_multiset(),
    ensures
        s.filter(p).len() == t.filter(p).len(),
{
    lemma_filter_multiset(s, p);
    lemma_filter_multiset(t, p);
    assert(s.filter(p).len() == s.filter(p).to_multiset().len());
    assert(t.filter(p).len() == t.filter(p).to_multiset().len());
}

proof fn lemma_filter_none<A>(s: Seq<A>, p: spec_fn(A) -> bool)
    requires
        forall|i: int| 0 <= i < s.len() ==> !p(#[trigger] s[i]),
    ensures
        s.filter(p).len() == 0,
    decreases s.len(),
{
    reveal(Seq::filter);
    if s.len() > 0 {
        lemma_filter_none(s.drop_last(), p);
    }
}

proof fn lemma_filter_all<A>(s: Seq<A>, p: spec_fn(A) -> bool)
    requires
        forall|i: int| 0 <= i < s.len() ==> p(#[trigger] s[i]),
    ensures
        s.filter(p).len() == s.len(),
    decreases s.len(),
{
    reveal(Seq::filter);
    if s.len() > 0 {
        lemma_filter_all(s.drop_last(), p);
    }
}

/// In a sequence sorted by key, a block `[i, j)` of key `k` with other keys
/// on both sides holds all the records of key `k`.
pub proof fn lemma_block_count<T>(s: Seq<(u64, T)>, i: int, j: int, k: u64)
    requires
        sorted_by_key(s),
        0 <= i < j <= s.len(),
        forall|x: int| i <= x < j ==> (#[trigger] s[x]).0 == k,
        i > 0 ==> s[i - 1].0 != k,
        j < s.len() ==> s[j].0 != k,
    ensures
        key_count(s, k) == j - i,
{
    let p = with_key::<T>(k);
    let a = s.subrange(0, i);
    let b = s.subrange(i, j);
    let c = s.subrange(j, s.len() as int);
    assert(s =~= a + b + c);
    Seq::filter_distributes_over_add(a + b, c, p);
    Seq::filter_distributes_over_add(a, b, p);
    assert forall|x: int| 0 <= x < a.len() implies !p(#[trigger] a[x]) by {
        assert(s[x].0 <= s[i - 1].0);
        assert(s[i - 1].0 <= s[i].0);
    }
    assert forall|x: int| 0 <= x < c.len() implies !p(#[trigger] c[x]) by {
        assert(s[j].0 <= s[j + x].0);
        assert(s[j - 1].0 <= s[j].0);
    }
    assert forall|x: int| 0 <= x < b.len() implies p(#[trigger] b[x]) by {
        assert(s[i + x].0 == k);
    }
    lemma_filter_none(a, p);
    lemma_filter_none(c, p);
    lemma_filter_all(b, p);
}

/// A record of key `k` is counted.
pub proof fn lemma_count_member<T>(s: Seq<(u64, T)>, x: int)
    requires
        0 <= x < s.len(),
    ensures
        key_count(s, s[x].0) >= 1,
{
    let p = with_key::<T>(s[x].0);
    s.lemma_filter_contains(p, x);
}

} // verus!
