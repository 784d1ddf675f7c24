use scanimprover::io::obj::{load, save, ObjError, ObjMesh, ObjVertex};

fn vtx(x: &str, y: &str, z: &str) -> ObjVertex {
    ObjVertex { x: x.chars().collect(), y: y.chars().collect(), z: z.chars().collect() }
}

fn mesh(points: &[(&str, &str, &str)], indices: Vec<u32>, quads: Option<usize>) -> ObjMesh {
    ObjMesh { positions: points.iter().map(|p| vtx(p.0, p.1, p.2)).collect(), indices, quads }
}

#[test]
fn polygons_are_fanned_and_negative_indices_resolve() {
    let text = "v 0 0 0\nv 1 0 0\nv 1 1 0\nv 0 1 0\n# quad with texture/normal refs\nf 1/1/1 2/2/2 3/3/3 4/4/4\nf -4 -3 -2\n";
    let m = load(text.as_bytes()).unwrap();
    assert_eq!(m.vertex_count(), 4);
    assert_eq!(m.triangle_count(), 3);
    assert_eq!(&m.indices[6..9], &[0, 1, 2]);
}

#[test]
fn rejects_out_of_range_and_empty_input() {
    assert!(load(b"v 0 0 0\nv 1 0 0\nf 1 2 3\n").is_err());
    assert!(load(b"v 0 0 0\n").is_err());
    assert!(load(b"v 0 0\n").is_err());
}

#[test]
fn save_writes_normals_and_one_based_faces() {
    let m = mesh(&[("0", "0", "0"), ("1", "0", "0"), ("0", "1", "0")], vec![0, 1, 2], None);
    let normals = vec![vtx("0", "0", "1"), vtx("0", "0", "1"), vtx("0", "0", "1")];
    let s = save(&m, &normals);
    assert!(s.contains("v 0 0 0\n"));
    assert!(s.contains("vn 0 0 1\n"));
    assert!(s.contains("f 1//1 2//2 3//3\n"));
}

#[test]
fn quads_are_written_as_quads_and_load_back() {
    let m = mesh(
        &[("0", "0", "0"), ("1", "0", "0"), ("1", "1", "0"), ("0", "1", "0"), ("2", "0", "0")],
        vec![0, 1, 2, 0, 2, 3, 1, 4, 2],
        Some(1),
    );
    let normals: Vec<ObjVertex> = (0..5).map(|_| vtx("0", "0", "1")).collect();
    let s = save(&m, &normals);
    assert!(s.contains("f 1//1 2//2 3//3 4//4\n"), "{s}");
    assert!(s.contains("f 2//2 5//5 3//3\n"), "{s}");
    let back = load(s.as_bytes()).unwrap();
    assert_eq!(back.indices, m.indices, "fanning restores the triangles");
    assert_eq!(back.quad_count(), 1, "quads survive a round trip");
}

#[test]
fn quads_load_first_as_a_quad_layout() {
    let text = "v 0 0 0\nv 1 0 0\nv 1 1 0\nv 0 1 0\nv 2 0 0\nf 2 5 3\nf 1 2 3 4\n";
    let m = load(text.as_bytes()).unwrap();
    assert_eq!(m.quad_count(), 1);
    assert_eq!(m.indices, vec![0, 1, 2, 0, 2, 3, 1, 4, 2]);
    // Triangle-only files keep their order and have no quads.
    let tri = load(b"v 0 0 0\nv 1 0 0\nv 0 1 0\nf 1 2 3\n").unwrap();
    assert_eq!(tri.quad_count(), 0);
    assert!(tri.quads.is_none());
}

#[test]
fn obj_errors_name_the_line() {
    assert!(matches!(load(b"v 0 0\n"), Err(ObjError::MissingCoordinate(1))));
    assert!(matches!(load(b"v 0 0 0\nv 1 x 0\n"), Err(ObjError::InvalidFloat(2))));
    assert!(matches!(load(b"v 0 0 0\nf 1 a 1\n"), Err(ObjError::InvalidFaceIndex(2))));
    assert!(matches!(load(b"v 0 0 0\nv 1 0 0\nf 1 2 3\n"), Err(ObjError::FaceIndexOutOfRange(3))));
    assert!(matches!(load(b"v 0 0 0\n"), Err(ObjError::NoFaces)));
    assert!(matches!(load(&[0x76, 0x20, 0xff]), Err(ObjError::NotUtf8)));
}

#[test]
fn obj_keeps_coordinate_text_and_skips_other_lines() {
    let text = "# comment\nvt 0.5 0.5\nv 1.5e0 -2 +3.25\nv 0 0 0\nv 0 1 0\nvn 0 0 1\ng group\nf 1 2 3\n";
    let m = load(text.as_bytes()).unwrap();
    assert_eq!(m.positions[0].x, "1.5e0".chars().collect::<Vec<_>>());
    assert_eq!(m.positions[0].y, "-2".chars().collect::<Vec<_>>());
    assert_eq!(m.positions[0].z, "+3.25".chars().collect::<Vec<_>>());
    assert_eq!(m.indices, vec![0, 1, 2]);
}

#[test]
fn obj_save_then_load_gives_the_mesh_back() {
    let m = mesh(
        &[("0.5", "1", "2"), ("1", "0", "0"), ("1", "1", "0"), ("0", "1", "0"), ("2", "0", "0")],
        vec![0, 1, 2, 0, 2, 3, 1, 4, 2],
        Some(1),
    );
    let normals: Vec<ObjVertex> = (0..5).map(|_| vtx("0", "0", "1")).collect();
    let back = load(save(&m, &normals).as_bytes()).unwrap();
    assert_eq!(back.indices, m.indices);
    assert_eq!(back.quads, m.quads);
    assert_eq!(back.positions.len(), 5);
    assert_eq!(back.positions[0].x, vec!['0', '.', '5']);
}

#[test]
fn obj_save_exact_text() {
    let m = mesh(&[("0", "0", "0"), ("1", "0", "0"), ("0", "1", "0")], vec![0, 1, 2], None);
    let normals = vec![vtx("0", "0", "1"), vtx("0", "0", "1"), vtx("0", "0", "1")];
    assert_eq!(
        save(&m, &normals),
        "v 0 0 0\nv 1 0 0\nv 0 1 0\nvn 0 0 1\nvn 0 0 1\nvn 0 0 1\nf 1//1 2//2 3//3\n"
    );
}
