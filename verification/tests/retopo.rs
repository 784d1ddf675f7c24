use scanimprover::geom::retopo::extract::{prune_dangling, split_pinched, Dsu};
use scanimprover::geom::retopo::post::{face_edges, irregular_vertices};
use scanimprover::geom::retopo::hierarchy::color_phases;

/// A graph in compressed rows from its (sorted, duplicate-free) directed edges.
fn csr(n: usize, mut pairs: Vec<(u32, u32)>) -> (Vec<u32>, Vec<u32>) {
    pairs.sort();
    pairs.dedup();
    let mut off = vec![0u32; n + 1];
    let mut nbr = Vec::new();
    for (a, b) in pairs {
        if a != b {
            nbr.push(b);
            off[a as usize + 1] += 1;
        }
    }
    for i in 0..n {
        off[i + 1] += off[i];
    }
    (off, nbr)
}

fn path(n: usize) -> (Vec<u32>, Vec<u32>) {
    let mut pairs = Vec::new();
    for i in 0..n as u32 - 1 {
        pairs.push((i, i + 1));
        pairs.push((i + 1, i));
    }
    csr(n, pairs)
}

#[test]
fn colouring_separates_neighbours() {
    let (off, nbr) = path(50);
    let phases = color_phases(&off, &nbr);
    assert_eq!(phases.len(), 2);
    for phase in &phases {
        for &i in phase {
            for &j in &nbr[off[i as usize] as usize..off[i as usize + 1] as usize] {
                assert!(!phase.contains(&j));
            }
        }
    }
}

#[test]
fn greedy_colours_take_the_smallest_free_colour() {
    // A triangle 0-1-2 with a pendant 3 on vertex 0.
    let (off, nbr) = csr(4, vec![(0, 1), (1, 0), (1, 2), (2, 1), (0, 2), (2, 0), (0, 3), (3, 0)]);
    let phases = color_phases(&off, &nbr);
    assert_eq!(phases, vec![vec![0], vec![1, 3], vec![2]]);
    // No vertices, no colours.
    assert!(color_phases(&[0], &[]).is_empty());
    // Isolated vertices all share colour 0.
    assert_eq!(color_phases(&[0, 0, 0], &[]), vec![vec![0, 1]]);
}

#[test]
fn pinched_loops_split_into_simple_loops() {
    // Two squares sharing vertex 0: 0 1 2 3 0 4 5 6.
    assert_eq!(split_pinched(&[0, 1, 2, 3, 0, 4, 5, 6]), vec![vec![0, 1, 2, 3], vec![0, 4, 5, 6]]);
    // A spike 2 3 2 is dropped.
    assert_eq!(split_pinched(&[0, 1, 2, 3, 2, 4]), vec![vec![0, 1, 2, 4]]);
    // A simple loop stays whole; short ones vanish.
    assert_eq!(split_pinched(&[5, 6, 7]), vec![vec![5, 6, 7]]);
    assert!(split_pinched(&[1, 2]).is_empty());
    assert!(split_pinched(&[]).is_empty());
}

#[test]
fn pruning_removes_a_tail_but_keeps_the_cycle() {
    // A triangle 0-1-2 with a tail 2-3-4.
    let mut adj: Vec<Vec<u32>> = vec![vec![1, 2], vec![0, 2], vec![0, 1, 3], vec![2, 4], vec![3]];
    prune_dangling(&mut adj);
    assert_eq!(adj, vec![vec![1, 2], vec![0, 2], vec![0, 1], vec![], vec![]]);
}

#[test]
fn pruning_a_tree_leaves_no_edges() {
    let mut adj: Vec<Vec<u32>> = vec![vec![1], vec![0, 2, 3], vec![1], vec![1]];
    prune_dangling(&mut adj);
    assert!(adj.iter().all(|l| l.is_empty()));
}

#[test]
fn pruning_keeps_a_graph_without_leaves() {
    let mut adj: Vec<Vec<u32>> = vec![vec![1, 3], vec![0, 2], vec![1, 3], vec![0, 2], vec![]];
    let before = adj.clone();
    prune_dangling(&mut adj);
    assert_eq!(adj, before);
}

#[test]
fn face_sides_come_sorted_by_edge() {
    let faces: Vec<Vec<u32>> = vec![vec![0, 1, 2], vec![2, 1, 3]];
    let edges = face_edges(&faces);
    let key = |a: u64, b: u64| (a << 32) | b;
    assert_eq!(
        edges,
        vec![(key(0, 1), 0), (key(0, 2), 0), (key(1, 2), 0), (key(1, 2), 1), (key(1, 3), 1), (key(2, 3), 1)]
    );
}

#[test]
fn every_cube_corner_is_irregular() {
    let faces: Vec<Vec<u32>> = vec![
        vec![0, 1, 3, 2],
        vec![4, 6, 7, 5],
        vec![0, 4, 5, 1],
        vec![2, 3, 7, 6],
        vec![0, 2, 6, 4],
        vec![1, 5, 7, 3],
    ];
    assert_eq!(irregular_vertices(&faces, 8), 8);
}

#[test]
fn a_quad_grid_is_regular_inside() {
    // 3 x 3 quads on a 4 x 4 grid of vertices; the 4 inner vertices have
    // valence four, the others lie on the boundary.
    let mut faces: Vec<Vec<u32>> = Vec::new();
    for y in 0..3u32 {
        for x in 0..3u32 {
            let v = y * 4 + x;
            faces.push(vec![v, v + 1, v + 5, v + 4]);
        }
    }
    assert_eq!(irregular_vertices(&faces, 16), 0);
    // An unused vertex is interior with valence zero.
    assert_eq!(irregular_vertices(&faces, 17), 1);
}

#[test]
fn disjoint_sets_join_under_the_larger() {
    let mut d = Dsu::new(5);
    assert_eq!(d.union_roots(0, 1), 0);
    assert_eq!(d.find(1), 0);
    // The set {0, 1} is larger than {2}: 0 stays the representative.
    let r2 = d.find(2);
    assert_eq!(d.union_roots(r2, 0), 0);
    assert_eq!(d.find(2), 0);
    assert_eq!(d.find(3), 3);
    // Equal sizes: the first one wins.
    assert_eq!(d.union_roots(4, 3), 4);
    assert_eq!(d.find(3), 4);
    let r = d.union_roots(4, 0);
    assert_eq!(r, 0);
    for x in 0..5 {
        assert_eq!(d.find(x), 0);
    }
}
