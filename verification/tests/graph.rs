use scanimprover::geom::boundary::{find_boundary_edges, generate_hole_mask, EdgeKey};
use scanimprover::geom::bridge::trace_all_chains;
use scanimprover::geom::guided_fill::neighbours;
use scanimprover::geom::topology::{shrink_selection, MeshTopology};

const M: u32 = u32::MAX;

#[test]
fn edge_keys_ignore_direction() {
    assert_eq!(EdgeKey::new(3, 1), EdgeKey(1, 3));
    assert_eq!(EdgeKey::new(1, 3), EdgeKey(1, 3));
    assert_eq!(EdgeKey::new(2, 2), EdgeKey(2, 2));
}

#[test]
fn boundary_edges_of_two_triangles() {
    let b = find_boundary_edges(&[0, 1, 2, 1, 3, 2]);
    let got: Vec<(EdgeKey, (u32, u32), u32)> = b.iter().map(|e| (e.key, e.directed, e.triangle)).collect();
    assert_eq!(
        got,
        vec![
            (EdgeKey(0, 1), (0, 1), 0),
            (EdgeKey(0, 2), (2, 0), 0),
            (EdgeKey(1, 3), (1, 3), 1),
            (EdgeKey(2, 3), (3, 2), 1),
        ]
    );
    // A closed tetrahedron has none.
    assert!(find_boundary_edges(&[0, 1, 2, 0, 3, 1, 1, 3, 2, 2, 3, 0]).is_empty());
    assert!(find_boundary_edges(&[]).is_empty());
}

#[test]
fn topology_links_shared_edges() {
    let topo = MeshTopology::build(&[0, 1, 2, 1, 3, 2]);
    assert_eq!(topo.triangle_count(), 2);
    assert_eq!(topo.neighbors, vec![[M, 1, M], [M, M, 0]]);
    assert_eq!(topo.neighbors[0].iter().filter(|&&nb| nb == 1).count(), 1);
    assert_eq!(topo.neighbors[1].iter().filter(|&&nb| nb == 0).count(), 1);
    // Both triangles have open edges, so both shrink away.
    assert_eq!(shrink_selection(&topo, &[1, 1]), vec![0, 0]);
    // A selection of the wrong size comes back unchanged.
    assert_eq!(shrink_selection(&topo, &[1, 1, 1]), vec![1, 1, 1]);
}

#[test]
fn non_manifold_edges_are_linked_in_a_cycle() {
    // Three triangles on the edge 0-1.
    let topo = MeshTopology::build(&[0, 1, 2, 1, 0, 3, 0, 1, 4]);
    for t in 0..3u32 {
        let nb = topo.neighbors[t as usize][0];
        assert!(nb != t && nb < 3);
    }
}

#[test]
fn closed_surfaces_keep_their_selection() {
    let tet = [0, 1, 2, 0, 3, 1, 1, 3, 2, 2, 3, 0];
    let topo = MeshTopology::build(&tet);
    assert!(topo.neighbors.iter().all(|row| row.iter().all(|&nb| nb != M)));
    assert_eq!(shrink_selection(&topo, &[1, 1, 1, 1]), vec![1, 1, 1, 1]);
    assert_eq!(shrink_selection(&topo, &[1, 1, 1, 0]), vec![0, 0, 0, 0]);
    assert_eq!(generate_hole_mask(&tet, 4, 2), vec![0, 0, 0, 0]);
}

fn grid(n: u32) -> Vec<u32> {
    let mut ind = Vec::new();
    for r in 0..n - 1 {
        for c in 0..n - 1 {
            let a = r * n + c;
            ind.extend_from_slice(&[a, a + 1, a + n + 1, a, a + n + 1, a + n]);
        }
    }
    ind
}

#[test]
fn hole_mask_marks_the_rim_of_a_sheet() {
    let n = 12u32;
    let ind = grid(n);
    let mask = generate_hole_mask(&ind, (n * n) as usize, 1);
    let on_rim = |v: u32| v / n == 0 || v / n == n - 1 || v % n == 0 || v % n == n - 1;
    let expected: Vec<u8> = ind.chunks(3).map(|t| u8::from(t.iter().any(|&v| on_rim(v)))).collect();
    assert_eq!(mask, expected);
    assert_eq!(mask.iter().filter(|&&m| m == 1).count(), 80);
    // Two rings mask more than four tenths: only the rim triangles remain.
    let wide = generate_hole_mask(&ind, (n * n) as usize, 3);
    let mut rim_tris: Vec<u32> = find_boundary_edges(&ind).iter().map(|e| e.triangle).collect();
    rim_tris.sort();
    rim_tris.dedup();
    assert_eq!(rim_tris.len(), 42);
    let marked: Vec<u32> = (0..wide.len() as u32).filter(|&t| wide[t as usize] == 1).collect();
    assert_eq!(marked, rim_tris);
    assert_eq!(generate_hole_mask(&[], 0, 1), Vec::<u8>::new());
}

#[test]
fn vertex_neighbours_are_sorted_and_unique() {
    let adj = neighbours(5, &[[0, 1, 2], [1, 3, 2]]);
    assert_eq!(adj, vec![vec![1, 2], vec![0, 2, 3], vec![0, 1, 3], vec![1, 2], vec![]]);
}

#[test]
fn chains_open_paths_first_then_cycles() {
    assert_eq!(trace_all_chains(&[(1, 2), (2, 3), (5, 6), (6, 5)]), vec![vec![1, 2, 3], vec![5, 6]]);
    assert_eq!(trace_all_chains(&[(1, 2), (2, 3), (3, 1)]), vec![vec![1, 2, 3]]);
    assert_eq!(trace_all_chains(&[(9, 4), (4, 7), (3, 8)]), vec![vec![3, 8], vec![9, 4, 7]]);
    assert!(trace_all_chains(&[]).is_empty());
}

/// The undirected edge of a step.
fn edge_of_step(a: u32, b: u32) -> (u32, u32) {
    (a.min(b), a.max(b))
}

#[test]
fn chains_walk_each_edge_at_most_once() {
    let he = [(0, 1), (1, 2), (2, 0), (2, 3), (3, 4), (4, 2), (5, 6)];
    let chains = trace_all_chains(&he);
    let mut seen = Vec::new();
    for c in &chains {
        for w in c.windows(2) {
            assert!(he.contains(&(w[0], w[1])));
            let e = edge_of_step(w[0], w[1]);
            assert!(!seen.contains(&e));
            seen.push(e);
        }
    }
    assert!(!chains.is_empty());
    // Every half-edge's edge is a step of a chain or closes one.
    for &(a, b) in &he {
        let e = edge_of_step(a, b);
        let covered = chains.iter().any(|c| {
            assert!(c.len() >= 2);
            c.windows(2).any(|w| edge_of_step(w[0], w[1]) == e) || edge_of_step(c[c.len() - 1], c[0]) == e
        });
        assert!(covered);
    }
}
