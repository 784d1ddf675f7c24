//! Feature references and axis choices of the alignment tool.
use vstd::prelude::*;

verus! {

/// Reference to a geometric feature that can be assigned to an axis or origin.
#[derive(Clone, Copy, PartialEq, Eq, Debug)]
pub enum FeatureRef {
    SymmetryPlane,
    Plane(u64),
    Circle(u64),
}

/// Target coordinate axis for orientation alignment.
#[derive(Clone, Copy, PartialEq, Eq, Debug)]
pub enum AxisChoice {
    X,
    Y,
    Z,
}

impl AxisChoice {
    /// The axis letter.
    pub open spec fn spec_name(self) -> Seq<char> {
        match self {
            AxisChoice::X => seq!['X'],
            AxisChoice::Y => seq!['Y'],
            AxisChoice::Z => seq!['Z'],
        }
    }

    pub fn name(&self) -> (s: &'static str)
        ensures
            s@ == self.spec_name(),
    {
        match self {
            AxisChoice::X => {
                proof { reveal_strlit("X"); }
                "X"
            },
            AxisChoice::Y => {
                proof { reveal_strlit("Y"); }
                "Y"
            },
            AxisChoice::Z => {
                proof { reveal_strlit("Z"); }
                "Z"
            },
        }
    }
}

/// Origin constraint definition.
#[derive(Clone, Copy, PartialEq, Eq, Debug)]
pub enum OriginRef {
    /// Compute origin from assigned feature positions (e.g. X from slot X, Y from slot Y, Z from slot Z).
    FromAssignedFeatures,
    /// Origin at the center of the specified circle.
    CircleCenter(u64),
    /// Origin on the specified plane.
    Plane(u64),
    /// Origin on the symmetry plane.
    SymmetryPlane,
    /// Origin at the bounding box center of the mesh.
    BBoxCenter,
}

/// Definition of feature alignment slots.
#[derive(Clone, Copy, Debug)]
pub struct AlignmentSlots {
    pub x: Option<FeatureRef>,
    pub y: Option<FeatureRef>,
    pub z: Option<FeatureRef>,
    pub origin: OriginRef,
    pub primary_axis: AxisChoice,
}

impl Default for AlignmentSlots {
    /// No feature assigned, the origin from the assigned features, `Z` as
    /// the primary axis.
    fn default() -> (r: Self)
        ensures
            r.x is None,
            r.y is None,
            r.z is None,
            r.origin == OriginRef::FromAssignedFeatures,
            r.primary_axis == AxisChoice::Z,
    {
        AlignmentSlots {
            x: None,
            y: None,
            z: None,
            origin: OriginRef::FromAssignedFeatures,
            primary_axis: AxisChoice::Z,
        }
    }
}

/// The two axes are the same.
pub open spec fn same_axis(a: AxisChoice, b: AxisChoice) -> bool {
    match (a, b) {
        (AxisChoice::X, AxisChoice::X) | (AxisChoice::Y, AxisChoice::Y) | (AxisChoice::Z, AxisChoice::Z) => true,
        _ => false,
    }
}

fn same_axis_exec(a: AxisChoice, b: AxisChoice) -> (r: bool)
    ensures
        r == same_axis(a, b),
{
    match (a, b) {
        (AxisChoice::X, AxisChoice::X) | (AxisChoice::Y, AxisChoice::Y) | (AxisChoice::Z, AxisChoice::Z) => true,
        _ => false,
    }
}

/// The first position of `axis` in `axes`, else 0.
pub open spec fn primary_index(axes: Seq<AxisChoice>, axis: AxisChoice) -> int {
    if exists|i: int| 0 <= i < axes.len() && same_axis(axes[i], axis) {
        choose|i: int| 0 <= i < axes.len() && same_axis(axes[i], axis) && forall|j: int| 0 <= j < i ==> !same_axis(axes[j], axis)
    } else {
        0
    }
}

/// Which of the assigned axes (one to three, in the order x, y, z) is
/// aligned first, second and third: the first is the preferred `primary`
/// axis when it is assigned, else the first assigned one; the second is
/// the first of the others; the third is the remaining one.
pub fn axis_order(axes: &[AxisChoice], primary: AxisChoice) -> (r: (usize, Option<usize>, Option<usize>))
    requires
        1 <= axes@.len() <= 3,
    ensures
        r.0 as int == primary_index(axes@, primary),
        axes@.len() >= 2 ==> r.1 == Some((if r.0 == 0 { 1usize } else { 0usize })),
        axes@.len() < 2 ==> r.1 is None,
        axes@.len() == 3 ==> r.2 == Some((3 - r.0 - (if r.0 == 0 { 1usize } else { 0usize })) as usize),
        axes@.len() < 3 ==> r.2 is None,
{
    let mut p: usize = 0;
    let mut found = false;
    let mut i: usize = 0;
    while i < axes.len()
        invariant
            i <= axes@.len(),
            !found ==> p == 0 && forall|j: int| 0 <= j < i ==> !same_axis(axes@[j], primary),
            found ==> p < i && same_axis(axes@[p as int], primary) && forall|j: int| 0 <= j < p ==> !same_axis(axes@[j], primary),
        decreases axes@.len() - i,
    {
        if !found && same_axis_exec(axes[i], primary) {
            p = i;
            found = true;
        }
        i += 1;
    }
    proof {
        if found {
            let c = choose|k: int| 0 <= k < axes@.len() && same_axis(axes@[k], primary) && forall|j: int| 0 <= j < k ==> !same_axis(axes@[j], primary);
            if c < p {
                assert(!same_axis(axes@[c], primary));
            } else if c > p {
                assert(!same_axis(axes@[p as int], primary));
            }
        }
    }
    let second = if axes.len() >= 2 {
        Some(if p == 0 { 1 } else { 0 })
    } else {
        None
    };
    let third = if axes.len() == 3 {
        Some(3 - p - (if p == 0 { 1 } else { 0 }))
    } else {
        None
    };
    (p, second, third)
}

} // verus!
