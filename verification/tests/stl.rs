use scanimprover::io::stl::{load, save, weld_corners, StlError, StlLoad};

/// The 50-byte facet records of triangles, as the STL writer gets them:
/// the unit normal (zero for a degenerate triangle), then the corners.
fn facets_of(positions: &[[f32; 3]], indices: &[u32]) -> Vec<[u32; 12]> {
    let mut out = Vec::new();
    for t in indices.chunks(3) {
        let [a, b, c] = [positions[t[0] as usize], positions[t[1] as usize], positions[t[2] as usize]];
        let u = [b[0] - a[0], b[1] - a[1], b[2] - a[2]];
        let v = [c[0] - a[0], c[1] - a[1], c[2] - a[2]];
        let n = [u[1] * v[2] - u[2] * v[1], u[2] * v[0] - u[0] * v[2], u[0] * v[1] - u[1] * v[0]];
        let len2 = n[0] * n[0] + n[1] * n[1] + n[2] * n[2];
        let n = if len2 > 1e-20 {
            let l = len2.sqrt();
            [n[0] / l, n[1] / l, n[2] / l]
        } else {
            [0.0; 3]
        };
        let mut r = [0u32; 12];
        for (k, p) in [n, a, b, c].iter().enumerate() {
            for j in 0..3 {
                r[3 * k + j] = p[j].to_bits();
            }
        }
        out.push(r);
    }
    out
}

#[test]
fn binary_roundtrip_with_parallel_parse() {
    // Enough triangles to exercise the parallel weld path.
    let n = 2000usize;
    let mut positions = Vec::new();
    let mut indices = Vec::new();
    for i in 0..n {
        let x = i as f32;
        let base = positions.len() as u32;
        positions.push([x, 0.0, 0.0]);
        positions.push([x + 1.0, 0.0, 0.0]);
        positions.push([x, 1.0, 0.0]);
        indices.extend_from_slice(&[base, base + 1, base + 2]);
    }
    let bytes = save(Some(b"strip".as_slice()), &facets_of(&positions, &indices));
    assert_eq!(bytes.len(), 84 + n * 50);
    let corners = match load(&bytes).unwrap() {
        StlLoad::Binary(c) => c,
        StlLoad::Ascii(_) => panic!("a written file is binary"),
    };
    let (welded, welded_indices) = weld_corners(&corners);
    assert_eq!(welded_indices.len() / 3, n);
    // Shared corners get welded: each x appears in two triangles.
    assert!(welded.len() < positions.len());
}

#[test]
fn errors_for_garbage_and_incomplete_ascii() {
    assert!(load(b"solid x\nendsolid x\n").is_err());
    assert!(load(b"solid x\nfacet normal 0 0 1\nouter loop\nvertex 0 0 0\nvertex 1 0 0\nendloop\nendfacet\nendsolid x\n").is_err());
    assert!(load(b"solid x\nfacet\nvertex 0 0 zz\n").is_err());
    assert!(load(&[0u8; 10]).is_err());
}

#[test]
fn stl_errors_are_told_apart() {
    assert!(matches!(load(b"solid x\nendsolid x\n"), Err(StlError::NotStl)));
    assert!(matches!(
        load(b"solid x\nfacet normal 0 0 1\nvertex 0 0 0\nvertex 1 0 0\nendsolid x\n"),
        Err(StlError::NoTriangles)
    ));
    match load(b"solid x\nfacet\nvertex 0 0 zz\n") {
        Err(StlError::InvalidFloat(3, t)) => assert_eq!(t, vec!['z', 'z']),
        _ => panic!("expected an invalid float on line 3"),
    }
    assert!(matches!(load(b"facet\n  VERTEX 1 2\n"), Err(StlError::MissingCoordinate(2))));
    assert!(matches!(load(&[0u8; 10]), Err(StlError::NotStl)));
    assert!(matches!(load(&[0xffu8, 0xfe, 0x00]), Err(StlError::NotText)));
}

#[test]
fn ascii_corners_keep_their_text() {
    let text = b"solid t\n facet normal 0 0 1\n  outer loop\n   Vertex 0 0 0\n   vertex 1e0 -0 +0.5\n   vertex inf 1 2\n  endloop\n endfacet\nendsolid t\n";
    match load(text) {
        Ok(StlLoad::Ascii(t)) => {
            let words: Vec<String> = t.iter().map(|w| w.iter().collect()).collect();
            assert_eq!(words, ["0", "0", "0", "1e0", "-0", "+0.5", "inf", "1", "2"]);
        }
        _ => panic!("expected ASCII corners"),
    }
}

#[test]
fn binary_header_count_and_finite_check() {
    let facet = [0u32, 0, 0x3f80_0000, 1, 2, 3, 4, 5, 6, 7, 8, 9];
    let bytes = save(None, &[facet]);
    assert_eq!(&bytes[..17], b"ScanImprover mesh");
    assert!(bytes[17..80].iter().all(|&b| b == 0));
    assert_eq!(&bytes[80..84], &[1, 0, 0, 0]);
    assert_eq!(&bytes[92..96], &[0, 0, 0x80, 0x3f]);
    assert_eq!(&bytes[132..134], &[0, 0]);
    match load(&bytes) {
        Ok(StlLoad::Binary(c)) => assert_eq!(c, vec![[1, 2, 3], [4, 5, 6], [7, 8, 9]]),
        _ => panic!("expected binary corners"),
    }
    // A long name is cut at 80 bytes.
    let long = [b'a'; 100];
    let bytes = save(Some(&long[..]), &[]);
    assert_eq!(bytes.len(), 84);
    assert_eq!(bytes[79], b'a');
    // An infinite coordinate is refused.
    let mut bad = facet;
    bad[4] = 0x7f80_0000;
    assert!(matches!(load(&save(None, &[bad])), Err(StlError::NonFinite)));
}

#[test]
fn welding_numbers_vertices_by_first_use() {
    let (p, i) = weld_corners(&[[1, 1, 1], [2, 2, 2], [1, 1, 1], [3, 3, 3], [2, 2, 2]]);
    assert_eq!(p, vec![[1, 1, 1], [2, 2, 2], [3, 3, 3]]);
    assert_eq!(i, vec![0, 1, 0, 2, 1]);
}
