use scanimprover::geom::solid::{reaches_missing_edge, validate, ValidateError};
use scanimprover::geom::solid::topo::{build_topology, TopoEdge, TopoError, TopoFace};

/// A unit cube, corner `x + 2y + 4z`, wound with outward normals, two
/// triangles per side.
fn cube() -> Vec<u32> {
    vec![
        0, 2, 1, 1, 2, 3, // z = 0
        4, 5, 6, 5, 7, 6, // z = 1
        0, 1, 4, 1, 5, 4, // y = 0
        2, 6, 3, 3, 6, 7, // y = 1
        0, 4, 2, 2, 4, 6, // x = 0
        1, 3, 5, 3, 7, 5, // x = 1
    ]
}

fn side_groups() -> Vec<i32> {
    vec![0, 0, 1, 1, 2, 2, 3, 3, 4, 4, 5, 5]
}

fn inside_out(ind: &[u32]) -> Vec<u32> {
    let mut out = Vec::new();
    for t in ind.chunks(3) {
        out.extend_from_slice(&[t[0], t[2], t[1]]);
    }
    out
}

#[test]
fn cube_has_six_faces_twelve_edges_eight_vertices() {
    let topo = build_topology(&cube(), false, &side_groups()).expect("a closed cube");
    assert_eq!(topo.faces.len(), 6);
    assert_eq!(topo.edges.len(), 12);
    assert_eq!(topo.vertices.len(), 8);
    assert_eq!(topo.mesh_euler, 2);
    assert_eq!(topo.absorbed, 0);
    assert!(!topo.flipped);
    for (f, face) in topo.faces.iter().enumerate() {
        assert_eq!(face.group, f as i32);
        assert_eq!(face.tris, vec![2 * f as u32, 2 * f as u32 + 1]);
        assert_eq!(face.loops.len(), 1);
        assert_eq!(face.loops[0].len(), 4);
    }
    for edge in &topo.edges {
        assert_eq!(edge.chain.len(), 2);
        assert_ne!(edge.faces[0], edge.faces[1]);
    }
    for v in &topo.vertices {
        assert_eq!(v.faces.len(), 3);
    }
}

#[test]
fn cube_topology_passes_its_check() {
    let topo = build_topology(&cube(), false, &side_groups()).unwrap();
    let nv = topo.vertices.len();
    assert_eq!(validate(&topo.faces, &topo.edges, nv, 0), Ok(()));
    // With genus one the formula does not hold: V - E + 2F - L = 2.
    assert_eq!(
        validate(&topo.faces, &topo.edges, nv, 1),
        Err(ValidateError::EulerPoincare(2, 1))
    );
}

#[test]
fn inside_out_cube_is_turned_over() {
    let topo = build_topology(&inside_out(&cube()), true, &side_groups()).unwrap();
    assert!(topo.flipped);
    assert_eq!(topo.tris[0], [0, 2, 1]);
    assert_eq!(topo.faces.len(), 6);
    assert_eq!(topo.edges.len(), 12);
}

#[test]
fn ungrouped_triangles_join_a_neighbour() {
    let mut groups = side_groups();
    groups[1] = -1;
    let topo = build_topology(&cube(), false, &groups).unwrap();
    assert_eq!(topo.absorbed, 1);
    assert_eq!(topo.faces.len(), 6);
    assert_eq!(topo.faces[0].tris, vec![0, 1]);
}

#[test]
fn empty_mesh_is_refused() {
    assert_eq!(build_topology(&[], false, &[]).err(), Some(TopoError::Empty));
}

#[test]
fn groups_must_match_the_triangles() {
    let groups = vec![0; 11];
    assert_eq!(build_topology(&cube(), false, &groups).err(), Some(TopoError::GroupsMismatch));
}

#[test]
fn degenerate_triangles_are_counted() {
    assert_eq!(build_topology(&[0, 0, 1], false, &[0]).err(), Some(TopoError::Degenerate(1)));
}

#[test]
fn open_sheet_is_not_closed() {
    assert_eq!(build_topology(&[0, 1, 2], false, &[0]).err(), Some(TopoError::NotClosed(3)));
}

#[test]
fn two_cubes_are_two_shells() {
    let mut ind = cube();
    ind.extend(cube().iter().map(|v| v + 8));
    let mut groups = side_groups();
    groups.extend(side_groups());
    assert_eq!(build_topology(&ind, false, &groups).err(), Some(TopoError::Shells(2)));
}

#[test]
fn mesh_without_groups_is_refused() {
    let groups = vec![-1; 12];
    assert_eq!(build_topology(&cube(), false, &groups).err(), Some(TopoError::NoGroups));
}

#[test]
fn one_group_gives_a_single_face() {
    let groups = vec![0; 12];
    assert_eq!(build_topology(&cube(), false, &groups).err(), Some(TopoError::SingleFace));
}

fn face(group: i32, loops: Vec<Vec<(usize, bool)>>) -> TopoFace {
    TopoFace { group, tris: vec![], loops }
}

fn edge(faces: [usize; 2], start: usize, end: usize) -> TopoEdge {
    TopoEdge { chain: vec![], faces, start, end }
}

#[test]
fn face_without_loops_has_no_boundary() {
    assert_eq!(validate(&vec![face(4, vec![])], &vec![], 0, 0), Err(ValidateError::NoBoundary(5)));
}

#[test]
fn empty_loop_is_refused() {
    assert_eq!(validate(&vec![face(0, vec![vec![]])], &vec![], 0, 0), Err(ValidateError::EmptyLoop(1)));
}

#[test]
fn loop_through_a_missing_edge() {
    assert_eq!(
        validate(&vec![face(0, vec![vec![(3, true)]])], &vec![], 0, 0),
        Err(ValidateError::MissingEdge)
    );
}

#[test]
fn edge_used_from_the_wrong_side() {
    let edges = vec![edge([1, 0], 0, 0)];
    assert_eq!(
        validate(&vec![face(2, vec![vec![(0, true)]])], &edges, 1, 0),
        Err(ValidateError::WrongFace(0, 3))
    );
}

#[test]
fn loop_that_does_not_close() {
    let edges = vec![edge([0, 0], 0, 1)];
    assert_eq!(
        validate(&vec![face(0, vec![vec![(0, true)]])], &edges, 2, 0),
        Err(ValidateError::OpenLoop(1))
    );
}

#[test]
fn edge_used_only_forwards() {
    let edges = vec![edge([0, 0], 0, 0)];
    assert_eq!(
        validate(&vec![face(0, vec![vec![(0, true)]])], &edges, 1, 0),
        Err(ValidateError::UseCount(0, 1, 0))
    );
}

#[test]
fn a_missing_next_edge_is_reached_only_without_an_earlier_failure() {
    // Use 0 is fine, the next one names edge 7, which does not exist.
    let edges = vec![edge([0, 0], 0, 1)];
    assert!(reaches_missing_edge(&vec![face(0, vec![vec![(0, true), (7, true)]])], &edges));
    // The first use is already on the wrong side: the check fails first.
    let edges = vec![edge([1, 0], 0, 1)];
    assert!(!reaches_missing_edge(&vec![face(0, vec![vec![(0, true), (7, true)]])], &edges));
    // All edges exist.
    let edges = vec![edge([0, 0], 0, 0)];
    assert!(!reaches_missing_edge(&vec![face(0, vec![vec![(0, true)]])], &edges));
}
