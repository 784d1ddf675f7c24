use scanimprover::geom::alignment::{axis_order, AlignmentSlots, AxisChoice, OriginRef};
use scanimprover::geom::bridge::BridgeMethod;
use scanimprover::geom::hole_fill::{FillDirectionMode, HoleFillMethod};
use scanimprover::geom::retopo::default_target_faces;
use scanimprover::geom::solid::regularize::Relations;
use scanimprover::geom::solid::topo::join_ids;
use scanimprover::io::{load_any, LoadError, LoadedMesh};
use scanimprover::io::stl::StlError;

#[test]
fn method_lists_and_names() {
    assert_eq!(BridgeMethod::all(), [BridgeMethod::CubicHermite, BridgeMethod::Linear, BridgeMethod::BulgeArc]);
    assert_eq!(BridgeMethod::BulgeArc.display_name(), "Bulge / Arch");
    assert_eq!(HoleFillMethod::all().len(), 4);
    assert_eq!(HoleFillMethod::all()[3], HoleFillMethod::LiepaSmooth);
    assert_eq!(HoleFillMethod::MinimalArea.display_name(), "Minimal Area (DP)");
    assert_eq!(FillDirectionMode::all()[0], FillDirectionMode::AutoNormal);
    assert_eq!(FillDirectionMode::AxisY.display_name(), "Axis Y");
    assert_eq!(AxisChoice::Z.name(), "Z");
}

#[test]
fn alignment_defaults() {
    let s = AlignmentSlots::default();
    assert!(s.x.is_none() && s.y.is_none() && s.z.is_none());
    assert_eq!(s.origin, OriginRef::FromAssignedFeatures);
    assert_eq!(s.primary_axis, AxisChoice::Z);
    assert_eq!(Relations::default(), Relations { parallel_sets: 0, snapped: 0, perpendicular: 0, coaxial_sets: 0, centered_spheres: 0 });
}

#[test]
fn target_faces_are_clamped() {
    assert_eq!(default_target_faces(0), 500);
    assert_eq!(default_target_faces(10_000), 500);
    assert_eq!(default_target_faces(20_000), 1000);
    assert_eq!(default_target_faces(1_000_000), 20_000);
}

#[test]
fn ids_are_joined_with_commas_and_and() {
    assert_eq!(join_ids(&[]), "");
    assert_eq!(join_ids(&[3]), "3");
    assert_eq!(join_ids(&[3, 5]), "3 and 5");
    assert_eq!(join_ids(&[3, 5, 7]), "3, 5 and 7");
    assert_eq!(join_ids(&[-1, 0, 12, i32::MIN]), "-1, 0, 12 and -2147483648");
}

#[test]
fn files_are_read_by_extension() {
    let obj = b"v 0 0 0\nv 1 0 0\nv 0 1 0\nf 1 2 3\n";
    assert!(matches!(load_any(&['O', 'b', 'J'], obj), Ok(LoadedMesh::Obj(_))));
    assert!(matches!(load_any(&['s', 't', 'l'], b"solid"), Err(LoadError::Stl(StlError::NotStl))));
    assert!(matches!(load_any(&['p', 'l', 'y'], b"x"), Err(LoadError::Ply(_))));
    match load_any(&['T', 'x', 't'], obj) {
        Err(LoadError::UnsupportedType(t)) => assert_eq!(t, vec!['t', 'x', 't']),
        _ => panic!("expected a refusal"),
    }
}

#[test]
fn the_preferred_axis_is_aligned_first() {
    let (x, y, z) = (AxisChoice::X, AxisChoice::Y, AxisChoice::Z);
    assert_eq!(axis_order(&[x, y, z], z), (2, Some(0), Some(1)));
    assert_eq!(axis_order(&[x, y, z], y), (1, Some(0), Some(2)));
    assert_eq!(axis_order(&[x, z], x), (0, Some(1), None));
    // The preferred axis has no feature: the first assigned one leads.
    assert_eq!(axis_order(&[y], z), (0, None, None));
    assert_eq!(axis_order(&[x, y], z), (0, Some(1), None));
}
