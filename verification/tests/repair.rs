use scanimprover::geom::hole_detect::trace_hole_loops;
use scanimprover::geom::repair::{analyze_mesh, count_non_manifold_vertices, MeshHealthReport};
use scanimprover::geom::topology::{grow_selection, shrink_selection, MeshTopology};

/// Which triangles have (next to) no area: |cross|^2 < 1e-14.
fn flat_flags(positions: &[[f32; 3]], indices: &[u32]) -> Vec<bool> {
    indices
        .chunks(3)
        .map(|t| {
            let [a, b, c] = [positions[t[0] as usize], positions[t[1] as usize], positions[t[2] as usize]];
            let u = [b[0] - a[0], b[1] - a[1], b[2] - a[2]];
            let v = [c[0] - a[0], c[1] - a[1], c[2] - a[2]];
            let n = [u[1] * v[2] - u[2] * v[1], u[2] * v[0] - u[0] * v[2], u[0] * v[1] - u[1] * v[0]];
            n[0] * n[0] + n[1] * n[1] + n[2] * n[2] < 1e-14
        })
        .collect()
}

fn unit_normal(positions: &[[f32; 3]], t: &[u32]) -> [f32; 3] {
    let [a, b, c] = [positions[t[0] as usize], positions[t[1] as usize], positions[t[2] as usize]];
    let u = [b[0] - a[0], b[1] - a[1], b[2] - a[2]];
    let v = [c[0] - a[0], c[1] - a[1], c[2] - a[2]];
    let n = [u[1] * v[2] - u[2] * v[1], u[2] * v[0] - u[0] * v[2], u[0] * v[1] - u[1] * v[0]];
    let l = (n[0] * n[0] + n[1] * n[1] + n[2] * n[2]).sqrt();
    if l > 0.0 {
        [n[0] / l, n[1] / l, n[2] / l]
    } else {
        [0.0; 3]
    }
}

/// For each triangle edge, whether the dihedral angle across it is within
/// `threshold` (radians).
fn passable(positions: &[[f32; 3]], indices: &[u32], topo: &MeshTopology, threshold: f32) -> Vec<[bool; 3]> {
    let normals: Vec<[f32; 3]> = indices.chunks(3).map(|t| unit_normal(positions, t)).collect();
    topo.neighbors
        .iter()
        .enumerate()
        .map(|(t, nbs)| {
            let mut row = [false; 3];
            for e in 0..3 {
                let nb = nbs[e];
                if nb != u32::MAX {
                    let (a, b) = (normals[t], normals[nb as usize]);
                    let dot = (a[0] * b[0] + a[1] * b[1] + a[2] * b[2]).clamp(-1.0, 1.0);
                    row[e] = dot.acos() <= threshold;
                }
            }
            row
        })
        .collect()
}

#[test]
fn bow_tie_vertex_is_non_manifold() {
    // Two triangles touching at vertex 0 only.
    let positions = vec![[0.0, 0.0, 0.0], [1.0, 0.0, 0.0], [0.0, 1.0, 0.0], [-1.0, 0.0, 0.0], [0.0, -1.0, 0.0]];
    let indices = vec![0, 1, 2, 0, 3, 4];
    assert_eq!(count_non_manifold_vertices(&indices, positions.len()), 1);
    let rep = analyze_mesh(&indices, positions.len(), &flat_flags(&positions, &indices));
    assert_eq!(rep.non_manifold_verts, 1);
    assert!(!rep.is_watertight);

    // Two triangles sharing an edge form one fan: manifold.
    let positions = vec![[0.0, 0.0, 0.0], [1.0, 0.0, 0.0], [0.0, 1.0, 0.0], [1.0, 1.0, 0.0]];
    let indices = vec![0, 1, 2, 1, 3, 2];
    assert_eq!(count_non_manifold_vertices(&indices, positions.len()), 0);
}

#[test]
fn test_topology_grow_and_shrink() {
    // Two triangles sharing an edge, flat (angle = 0)
    let positions = vec![[0.0, 0.0, 0.0], [1.0, 0.0, 0.0], [0.0, 1.0, 0.0], [1.0, 1.0, 0.0]];
    // Triangle 0: (0, 1, 2), Triangle 1: (1, 3, 2)
    let indices = vec![0, 1, 2, 1, 3, 2];
    let topo = MeshTopology::build(&indices);

    assert_eq!(topo.triangle_count(), 2);
    assert_eq!(topo.neighbors[0].iter().filter(|&&nb| nb == 1).count(), 1);
    assert_eq!(topo.neighbors[1].iter().filter(|&&nb| nb == 0).count(), 1);

    let sel = vec![1u8, 0u8];
    let grown = grow_selection(&topo, &sel, &passable(&positions, &indices, &topo, 0.1));
    assert_eq!(grown, vec![1u8, 1u8]);

    let shrunk = shrink_selection(&topo, &grown);
    // Since both have open boundary edges, both shrink
    assert_eq!(shrunk, vec![0u8, 0u8]);
}

#[test]
fn test_topology_angle_threshold() {
    // Two triangles at 90 degrees.
    let positions = vec![[0.0, 0.0, 0.0], [1.0, 0.0, 0.0], [0.0, 1.0, 0.0], [0.0, 0.0, 1.0]];
    let indices = vec![0, 1, 2, 0, 3, 1];
    let topo = MeshTopology::build(&indices);
    let (a, b) = (unit_normal(&positions, &indices[0..3]), unit_normal(&positions, &indices[3..6]));
    let angle = (a[0] * b[0] + a[1] * b[1] + a[2] * b[2]).clamp(-1.0, 1.0).acos();
    assert!((angle - std::f32::consts::PI * 0.5).abs() < 1e-4);
    let sel = vec![1u8, 0u8];
    let blocked = grow_selection(&topo, &sel, &passable(&positions, &indices, &topo, 45f32.to_radians()));
    assert_eq!(blocked, vec![1u8, 0u8]);
    let allowed = grow_selection(&topo, &sel, &passable(&positions, &indices, &topo, 100f32.to_radians()));
    assert_eq!(allowed, vec![1u8, 1u8]);
    // A selection of the wrong length comes back unchanged.
    assert_eq!(grow_selection(&topo, &[1u8], &[[true; 3]; 2]), vec![1u8]);
}

fn tetrahedron() -> Vec<u32> {
    vec![0, 1, 2, 0, 3, 1, 1, 3, 2, 2, 3, 0]
}

#[test]
fn closed_tetrahedron_is_healthy() {
    let ind = tetrahedron();
    let rep = analyze_mesh(&ind, 4, &[false; 4]);
    assert_eq!(
        rep,
        MeshHealthReport {
            is_watertight: true,
            euler_characteristic: 2,
            genus: 0,
            boundary_edges: 0,
            hole_count: 0,
            non_manifold_edges: 0,
            non_manifold_verts: 0,
            degenerate_faces: 0,
            duplicate_faces: 0,
            isolated_verts: 0,
            component_count: 1,
            inconsistent_normals: 0,
        }
    );
    assert!(trace_hole_loops(&ind).is_empty());
}

#[test]
fn open_sheet_has_one_hole() {
    let ind = vec![0, 1, 2, 0, 2, 3];
    let rep = analyze_mesh(&ind, 4, &[false; 2]);
    assert!(!rep.is_watertight);
    assert_eq!(rep.boundary_edges, 4);
    assert_eq!(rep.euler_characteristic, 1);
    assert_eq!(rep.genus, 0);
    assert_eq!(rep.hole_count, 1);
    assert_eq!(rep.component_count, 1);
    let loops = trace_hole_loops(&ind);
    assert_eq!(loops, vec![vec![0, 1, 2, 3]]);
}

#[test]
fn bad_faces_and_unused_vertices_are_counted() {
    // A degenerate triangle, a flat one, a duplicate (reversed) and an
    // unused vertex 5.
    let ind = vec![0, 0, 1, 0, 1, 2, 2, 1, 0, 1, 3, 4];
    let rep = analyze_mesh(&ind, 6, &[false, false, false, true]);
    assert_eq!(rep.degenerate_faces, 2);
    assert_eq!(rep.duplicate_faces, 1);
    assert_eq!(rep.isolated_verts, 1);
    // Two triangles walking their shared edge the same way.
    let rep = analyze_mesh(&[0, 1, 2, 0, 1, 3], 4, &[false; 2]);
    assert_eq!(rep.inconsistent_normals, 1);
    assert!(!rep.is_watertight);
    // Nothing to analyse.
    assert_eq!(analyze_mesh(&[], 3, &[]), MeshHealthReport::default());
}

#[test]
fn two_shells_are_two_components() {
    let mut ind = tetrahedron();
    ind.extend(tetrahedron().iter().map(|&i| i + 4));
    let rep = analyze_mesh(&ind, 8, &[false; 8]);
    assert_eq!(rep.component_count, 2);
    // Closed and 2-manifold, so watertight; the genus is given for one shell only.
    assert!(rep.is_watertight);
    assert_eq!(rep.euler_characteristic, 4);
    assert_eq!(rep.genus, 0);
}

#[test]
fn hole_loops_follow_boundary_edges_once() {
    // Two separate triangles: two holes of three edges each.
    let ind = vec![0, 1, 2, 3, 4, 5];
    let loops = trace_hole_loops(&ind);
    assert_eq!(loops.len(), 2);
    let mut seen = Vec::new();
    for lp in &loops {
        assert_eq!(lp.len(), 3);
        for i in 0..lp.len() {
            let (a, b) = (lp[i], lp[(i + 1) % lp.len()]);
            let e = (a.min(b), a.max(b));
            assert!(!seen.contains(&e));
            seen.push(e);
        }
    }
}
