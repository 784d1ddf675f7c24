//! What the inference of relationships between fitted surfaces changed.
use vstd::prelude::*;

verus! {

/// What the relationship inference changed.
#[derive(Clone, Copy, Debug, PartialEq, Eq, Structural)]
pub struct Relations {
    /// Direction sets with at least two members (parallel planes / axes).
    pub parallel_sets: usize,
    /// Surfaces whose direction was changed by the snapping.
    pub snapped: usize,
    /// Pairs of direction sets made exactly perpendicular.
    pub perpendicular: usize,
    /// Sets of at least two surfaces of revolution sharing one axis.
    pub coaxial_sets: usize,
    /// Spheres moved onto an axis.
    pub centered_spheres: usize,
}

impl Default for Relations {
    /// Nothing changed.
    fn default() -> (r: Self)
        ensures
            r.parallel_sets == 0,
            r.snapped == 0,
            r.perpendicular == 0,
            r.coaxial_sets == 0,
            r.centered_spheres == 0,
    {
        Relations { parallel_sets: 0, snapped: 0, perpendicular: 0, coaxial_sets: 0, centered_spheres: 0 }
    }
}

} // verus!
