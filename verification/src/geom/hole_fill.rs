//! The choices offered for filling a boundary hole.
use vstd::prelude::*;

verus! {

/// Available algorithms for filling a mesh boundary hole.
#[derive(Clone, Copy, PartialEq, Eq, Debug)]
pub enum HoleFillMethod {
    /// Connects boundary edges to the loop centroid. Very fast and robust.
    PlanarFan,
    /// 2D best-fit plane projection and polygon ear-clipping. No interior vertices.
    EarClipping,
    /// Barequet-Sharir dynamic programming: finds 3D triangulation minimizing total surface area.
    MinimalArea,
    /// Liepa (2003): Initial triangulation followed by edge refinement and Laplacian surface fairing.
    LiepaSmooth,
}

impl HoleFillMethod {
    /// The label shown for the method.
    pub open spec fn spec_display_name(self) -> Seq<char> {
        match self {
            HoleFillMethod::PlanarFan => "Planar Fan (Centroid)"@,
            HoleFillMethod::EarClipping => "Ear Clipping (Planar)"@,
            HoleFillMethod::MinimalArea => "Minimal Area (DP)"@,
            HoleFillMethod::LiepaSmooth => "Liepa Smooth (Refined & Faired)"@,
        }
    }

    /// Every method, in the order they are offered.
    pub fn all() -> (r: [HoleFillMethod; 4])
        ensures
            r@ == seq![
                HoleFillMethod::PlanarFan,
                HoleFillMethod::EarClipping,
                HoleFillMethod::MinimalArea,
                HoleFillMethod::LiepaSmooth,
            ],
    {
        let r = [
            HoleFillMethod::PlanarFan,
            HoleFillMethod::EarClipping,
            HoleFillMethod::MinimalArea,
            HoleFillMethod::LiepaSmooth,
        ];
        assert(r@ =~= seq![
            HoleFillMethod::PlanarFan,
            HoleFillMethod::EarClipping,
            HoleFillMethod::MinimalArea,
            HoleFillMethod::LiepaSmooth,
        ]);
        r
    }

    pub fn display_name(&self) -> (s: &'static str)
        ensures
            s@ == self.spec_display_name(),
    {
        match self {
            HoleFillMethod::PlanarFan => "Planar Fan (Centroid)",
            HoleFillMethod::EarClipping => "Ear Clipping (Planar)",
            HoleFillMethod::MinimalArea => "Minimal Area (DP)",
            HoleFillMethod::LiepaSmooth => "Liepa Smooth (Refined & Faired)",
        }
    }
}

/// Direction mode for bulging / curving the hole fill.
#[derive(Clone, Copy, PartialEq, Eq, Debug)]
pub enum FillDirectionMode {
    AutoNormal,
    InvertedNormal,
    AxisX,
    AxisY,
    AxisZ,
}

impl FillDirectionMode {
    /// The label shown for the mode.
    pub open spec fn spec_display_name(self) -> Seq<char> {
        match self {
            FillDirectionMode::AutoNormal => "Auto (Surface Normal)"@,
            FillDirectionMode::InvertedNormal => "Inverted Normal"@,
            FillDirectionMode::AxisX => "Axis X"@,
            FillDirectionMode::AxisY => "Axis Y"@,
            FillDirectionMode::AxisZ => "Axis Z"@,
        }
    }

    /// Every mode, in the order they are offered.
    pub fn all() -> (r: [FillDirectionMode; 5])
        ensures
            r@ == seq![
                FillDirectionMode::AutoNormal,
                FillDirectionMode::InvertedNormal,
                FillDirectionMode::AxisX,
                FillDirectionMode::AxisY,
                FillDirectionMode::AxisZ,
            ],
    {
        let r = [
            FillDirectionMode::AutoNormal,
            FillDirectionMode::InvertedNormal,
            FillDirectionMode::AxisX,
            FillDirectionMode::AxisY,
            FillDirectionMode::AxisZ,
        ];
        assert(r@ =~= seq![
            FillDirectionMode::AutoNormal,
            FillDirectionMode::InvertedNormal,
            FillDirectionMode::AxisX,
            FillDirectionMode::AxisY,
            FillDirectionMode::AxisZ,
        ]);
        r
    }

    pub fn display_name(&self) -> (s: &'static str)
        ensures
            s@ == self.spec_display_name(),
    {
        match self {
            FillDirectionMode::AutoNormal => "Auto (Surface Normal)",
            FillDirectionMode::InvertedNormal => "Inverted Normal",
            FillDirectionMode::AxisX => "Axis X",
            FillDirectionMode::AxisY => "Axis Y",
            FillDirectionMode::AxisZ => "Axis Z",
        }
    }
}

} // verus!
