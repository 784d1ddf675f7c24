use scanimprover::geom::bridge::{cluster_boundary_chains, find_selection_clusters, select_bridge_clusters, grid_triangles, BridgeSelectError};
use scanimprover::geom::topology::{check_mesh_watertight, MeshTopology};

/// A strip of four triangles: 0-1, 1-2 and 2-3 share an edge.
fn strip() -> Vec<u32> {
    vec![0, 1, 2, 1, 3, 2, 2, 3, 4, 3, 5, 4]
}

#[test]
fn selected_triangles_form_clusters() {
    let ind = strip();
    let topo = MeshTopology::build(&ind);
    assert_eq!(find_selection_clusters(&topo, &[1, 0, 1, 1]), vec![vec![0], vec![2, 3]]);
    assert_eq!(find_selection_clusters(&topo, &[1, 1, 1, 1]), vec![vec![0, 1, 2, 3]]);
    assert!(find_selection_clusters(&topo, &[0, 0, 0, 0]).is_empty());
}

#[test]
fn bridging_needs_exactly_two_clusters() {
    let ind = strip();
    let topo = MeshTopology::build(&ind);
    assert_eq!(select_bridge_clusters(&topo, &[1, 0, 0, 1]), Ok((vec![0], vec![3])));
    assert_eq!(select_bridge_clusters(&topo, &[1, 1, 1, 1]), Err(BridgeSelectError::TooFew(1)));
    assert_eq!(select_bridge_clusters(&topo, &[1, 0, 1, 0]), Ok((vec![0], vec![2])));
    assert_eq!(select_bridge_clusters(&topo, &[1, 0]), Err(BridgeSelectError::SizeMismatch));
    let ind3 = vec![0, 1, 2, 1, 3, 2, 2, 3, 4, 3, 5, 4, 4, 5, 6];
    let topo3 = MeshTopology::build(&ind3);
    assert_eq!(select_bridge_clusters(&topo3, &[1, 0, 1, 0, 1]), Err(BridgeSelectError::TooMany(3)));
}

#[test]
fn cluster_boundaries_prefer_open_sides() {
    let ind = strip();
    let topo = MeshTopology::build(&ind);
    // Triangle 0 has the open sides 0->1 and 2->0.
    assert_eq!(cluster_boundary_chains(&ind, &topo, &[0]), Ok((true, vec![vec![2, 0, 1]])));
    // A closed tetrahedron: a face has only sides towards the rest.
    let tet = vec![0, 1, 2, 0, 3, 1, 1, 3, 2, 2, 3, 0];
    let t = MeshTopology::build(&tet);
    match cluster_boundary_chains(&tet, &t, &[0]) {
        Ok((open, chains)) => {
            assert!(!open);
            assert_eq!(chains.len(), 1);
            assert_eq!(chains[0].len(), 3);
        }
        Err(e) => panic!("unexpected {e:?}"),
    }
    // The whole tetrahedron has no boundary at all.
    assert_eq!(cluster_boundary_chains(&tet, &t, &[0, 1, 2, 3]), Err(BridgeSelectError::NoBoundary));
}

#[test]
fn watertight_means_every_edge_twice() {
    assert!(check_mesh_watertight(&[0, 1, 2, 0, 3, 1, 1, 3, 2, 2, 3, 0]));
    assert!(!check_mesh_watertight(&strip()));
    assert!(!check_mesh_watertight(&[]));
    // Two triangles on the same three vertices close up too.
    assert!(check_mesh_watertight(&[0, 1, 2, 0, 2, 1]));
}

#[test]
fn one_cell_grid_gives_two_triangles() {
    assert_eq!(grid_triangles(2, 2, 0, false), vec![0, 3, 2, 0, 1, 3]);
    assert_eq!(grid_triangles(2, 2, 0, true), vec![0, 2, 3, 0, 3, 1]);
}

#[test]
fn grid_is_numbered_row_by_row_from_its_base() {
    assert_eq!(
        grid_triangles(3, 3, 10, false),
        vec![
            10, 14, 13, 10, 11, 14, 11, 15, 14, 11, 12, 15, //
            13, 17, 16, 13, 14, 17, 14, 18, 17, 14, 15, 18,
        ]
    );
}

#[test]
fn a_single_row_or_column_has_no_cells() {
    assert!(grid_triangles(1, 5, 0, false).is_empty());
    assert!(grid_triangles(4, 1, 0, true).is_empty());
    assert!(grid_triangles(0, 0, 0, false).is_empty());
}
