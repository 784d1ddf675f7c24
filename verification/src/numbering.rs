//! Numbering items by first use: the distinct items in the order they first
//! occur, and for every item the number of its first occurrence.
use vstd::prelude::*;

verus! {

/// The index of `x` in `p`.
pub open spec fn position_of<T>(p: Seq<T>, x: T) -> int {
    choose|i: int| 0 <= i < p.len() && p[i] == x
}

/// The distinct items of `c` in the order they first occur, and for each
/// item of `c` the index of its value among them.
pub open spec fn first_uses<T>(c: Seq<T>) -> (Seq<T>, Seq<u32>)
    decreases c.len(),
{
    if c.len() == 0 {
        (Seq::empty(), Seq::empty())
    } else {
        let (p, idx) = first_uses(c.drop_last());
        let x = c.last();
        if p.contains(x) {
            (p, idx.push(position_of(p, x) as u32))
        } else {
            (p.push(x), idx.push(p.len() as u32))
        }
    }
}

pub proof fn lemma_first_uses_len<T>(c: Seq<T>)
    ensures
        first_uses(c).1.len() == c.len(),
        first_uses(c).0.len() <= c.len(),
    decreases c.len(),
{
    if c.len() > 0 {
        lemma_first_uses_len(c.drop_last());
    }
}

/// Numbering loses nothing: each item is the value its number points to,
/// and no value is listed twice.
pub proof fn lemma_first_uses_keeps<T>(c: Seq<T>)
    requires
        c.len() <= u32::MAX,
    ensures
        first_uses(c).1.len() == c.len(),
        forall|j: int, k: int| 0 <= j < k < first_uses(c).0.len() ==> first_uses(c).0[j] != first_uses(c).0[k],
        forall|i: int|
            0 <= i < c.len() ==> (#[trigger] first_uses(c).1[i]) < first_uses(c).0.len() && first_uses(c).0[first_uses(
                c,
            ).1[i] as int] == c[i],
    decreases c.len(),
{
    lemma_first_uses_len(c);
    if c.len() > 0 {
        let d = c.drop_last();
        lemma_first_uses_keeps(d);
        lemma_first_uses_len(d);
        let (p, idx) = first_uses(d);
        let x = c.last();
        if p.contains(x) {
            let q = position_of(p, x);
            assert(p[q] == x);
        }
        assert forall|i: int| 0 <= i < c.len() implies (#[trigger] first_uses(c).1[i]) < first_uses(c).0.len()
            && first_uses(c).0[first_uses(c).1[i] as int] == c[i] by {
            if i < d.len() {
                assert(first_uses(d).1[i] < first_uses(d).0.len());
                assert(c[i] == d[i]);
            }
        }
    }
}

} // verus!
