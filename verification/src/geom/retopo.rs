//! Settings of the quad remesher, and the combinatorial steps of its
//! extraction.
use vstd::prelude::*;

pub mod extract;
pub mod post;
pub mod hierarchy;

verus! {

/// `v` held to the range `[lo, hi]`.
pub open spec fn clamp(v: int, lo: int, hi: int) -> int {
    if v < lo {
        lo
    } else if v > hi {
        hi
    } else {
        v
    }
}

/// Face count used when the target is left on automatic: a twentieth of the
/// triangles, held between 500 and 20 000.
pub fn default_target_faces(triangles: usize) -> (r: usize)
    ensures
        r == clamp(triangles as int / 20, 500, 20_000),
        500 <= r <= 20_000,
{
    let t = triangles / 20;
    if t < 500 {
        500
    } else if t > 20_000 {
        20_000
    } else {
        t
    }
}

} // verus!
