use scanimprover::geom::segment::{grow_regions, merge_tiny_regions};
use scanimprover::geom::topology::MeshTopology;

/// A strip of five triangles, each sharing one edge with the next.
fn strip() -> MeshTopology {
    let indices: Vec<u32> = vec![0, 1, 2, 1, 3, 2, 2, 3, 4, 3, 5, 4, 4, 5, 6];
    MeshTopology::build(&indices)
}

#[test]
fn a_tiny_region_joins_its_only_neighbour() {
    let topo = strip();
    let mut regions: Vec<Vec<u32>> = vec![vec![0, 1, 2, 3], vec![4]];
    let mut region_of: Vec<i32> = vec![0, 0, 0, 0, 1];
    merge_tiny_regions(&topo, &mut regions, &mut region_of, 2);
    assert_eq!(regions, vec![vec![0, 1, 2, 3, 4], vec![]]);
    assert_eq!(region_of, vec![0, 0, 0, 0, 0]);
}

#[test]
fn equal_neighbours_go_to_the_lower_number() {
    let topo = strip();
    let mut regions: Vec<Vec<u32>> = vec![vec![0, 1], vec![2], vec![3, 4]];
    let mut region_of: Vec<i32> = vec![0, 0, 1, 2, 2];
    merge_tiny_regions(&topo, &mut regions, &mut region_of, 2);
    assert_eq!(regions, vec![vec![0, 1, 2], vec![], vec![3, 4]]);
    assert_eq!(region_of, vec![0, 0, 0, 2, 2]);
}

#[test]
fn smallest_regions_merge_first() {
    let topo = strip();
    // Region 1 (one triangle) merges first, into region 0 or 2; then
    // region 0 (two triangles before, three now) is still on the list and
    // joins region 2.
    let mut regions: Vec<Vec<u32>> = vec![vec![0, 1], vec![2], vec![3, 4]];
    let mut region_of: Vec<i32> = vec![0, 0, 1, 2, 2];
    merge_tiny_regions(&topo, &mut regions, &mut region_of, 3);
    assert_eq!(regions, vec![vec![], vec![], vec![3, 4, 0, 1, 2]]);
    assert_eq!(region_of, vec![2, 2, 2, 2, 2]);
}

#[test]
fn a_region_without_grouped_neighbours_stays() {
    let topo = strip();
    let mut regions: Vec<Vec<u32>> = vec![vec![2]];
    let mut region_of: Vec<i32> = vec![-1, -1, 0, -1, -1];
    merge_tiny_regions(&topo, &mut regions, &mut region_of, 5);
    assert_eq!(regions, vec![vec![2]]);
    assert_eq!(region_of, vec![-1, -1, 0, -1, -1]);
}

fn strip_topology() -> MeshTopology {
    // Triangle 1 shares an edge with triangles 0 and 2.
    MeshTopology::build(&[0, 1, 2, 2, 1, 3, 2, 3, 4])
}

#[test]
fn regions_grow_across_passable_sides() {
    let topo = strip_topology();
    let mut region_of = vec![-1; 3];
    let mut regions: Vec<Vec<u32>> = Vec::new();
    grow_regions(&topo, &[[true; 3]; 3], &[false; 3], &mut region_of, &mut regions);
    assert_eq!(regions, vec![vec![0, 1, 2]]);
    assert_eq!(region_of, vec![0, 0, 0]);
}

#[test]
fn blocked_triangles_and_closed_sides_split_regions() {
    let topo = strip_topology();
    let mut region_of = vec![-1; 3];
    let mut regions: Vec<Vec<u32>> = Vec::new();
    grow_regions(&topo, &[[true; 3]; 3], &[false, true, false], &mut region_of, &mut regions);
    assert_eq!(regions, vec![vec![0], vec![2]]);
    assert_eq!(region_of, vec![0, -1, 1]);

    // Nothing is passable: every triangle is a region of its own, numbered
    // after the regions already there.
    let mut region_of = vec![0, -1, -1];
    let mut regions: Vec<Vec<u32>> = vec![vec![0]];
    grow_regions(&topo, &[[false; 3]; 3], &[false; 3], &mut region_of, &mut regions);
    assert_eq!(regions, vec![vec![0], vec![1], vec![2]]);
    assert_eq!(region_of, vec![0, 1, 2]);
}
