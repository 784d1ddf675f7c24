use scanimprover::io::ply::{load, save, load_binary, parse_header, find_header_end, PlyError, PlyLoad, PlyType, PlyFormat};
use scanimprover::io::ply_ascii::{load_ascii, AsciiNum, AsciiToken};

fn header(body: &str) -> Vec<u8> {
    body.as_bytes().to_vec()
}

fn le_f32(v: f32) -> [u8; 4] {
    v.to_le_bytes()
}

fn binary_triangle() -> Vec<u8> {
    let mut b = header(
        "ply\nformat binary_little_endian 1.0\nelement vertex 3\nproperty float x\nproperty float y\nproperty float z\nelement face 1\nproperty list uchar int vertex_indices\nend_header\n",
    );
    for p in [[0.0f32, 0.0, 0.0], [1.0, 0.0, 0.0], [0.0, 1.0, 0.0]] {
        for v in p {
            b.extend_from_slice(&le_f32(v));
        }
    }
    b.push(3);
    for i in [0i32, 1, 2] {
        b.extend_from_slice(&i.to_le_bytes());
    }
    b
}

fn mesh_of(r: Result<PlyLoad, PlyError>) -> scanimprover::io::ply::PlyMesh {
    match r {
        Ok(PlyLoad::Mesh(m)) => m,
        _ => panic!("expected a binary mesh"),
    }
}

#[test]
fn binary_triangle_loads() {
    let m = mesh_of(load(&binary_triangle()));
    assert_eq!(m.positions.len(), 3);
    assert_eq!(m.indices, vec![0, 1, 2]);
    assert_eq!(m.positions[1].x.ty, PlyType::Float);
    assert_eq!(m.positions[1].x.raw, 1.0f32.to_bits() as u64);
    assert_eq!(m.positions[2].y.raw, 1.0f32.to_bits() as u64);
}

#[test]
fn quads_are_fanned_and_negative_indices_count_back() {
    let mut b = header(
        "ply\nformat binary_little_endian 1.0\nelement vertex 4\nproperty uchar x\nproperty uchar y\nproperty uchar z\nelement face 1\nproperty list uchar int vertex_indices\nend_header\n",
    );
    b.extend_from_slice(&[0, 0, 0, 1, 0, 0, 1, 1, 0, 0, 1, 0]);
    b.push(4);
    for i in [0i32, 1, 2, -1] {
        b.extend_from_slice(&i.to_le_bytes());
    }
    let m = mesh_of(load(&b));
    assert_eq!(m.indices, vec![0, 1, 2, 0, 2, 3]);
    assert_eq!(m.positions[1].x.raw, 1);
}

#[test]
fn binary_errors() {
    let full = binary_triangle();
    assert!(matches!(load(&full[..full.len() - 1]), Err(PlyError::Truncated)));
    assert!(matches!(load(b"ply"), Err(PlyError::NotPly)));
    assert!(matches!(load(b"ply\nformat ascii 1.0\n"), Err(PlyError::NoEndHeader)));
    assert!(matches!(load(b"plx\nend_header\n"), Err(PlyError::MissingMagic)));
    assert!(matches!(load(b"ply\nformat binary_big_endian 1.0\nend_header\n"), Err(PlyError::BigEndian)));
    assert!(matches!(load(b"ply\nformat weird 1.0\nend_header\n"), Err(PlyError::InvalidFormat)));
    assert!(matches!(load(b"ply\nend_header\n"), Err(PlyError::NoFormat)));
    assert!(matches!(load(b"ply\nformat binary_little_endian 1.0\nend_header\n"), Err(PlyError::NoMeshData)));
    assert!(matches!(
        load(b"ply\nformat binary_little_endian 1.0\nelement vertex 1\nproperty float x\nend_header\n"),
        Err(PlyError::MissingProperty(_, _))
    ));
    assert!(matches!(
        load(b"ply\nformat binary_little_endian 1.0\nelement face 1\nproperty int x\nend_header\n"),
        Err(PlyError::FaceWithoutList)
    ));
    assert!(matches!(
        load(b"ply\nformat binary_little_endian 1.0\nelement face 1\nproperty list uchar int i\nproperty int x\nend_header\n"),
        Err(PlyError::ExtraFaceProperties)
    ));
    assert!(matches!(
        load(b"ply\nformat binary_little_endian 1.0\nelement vertex 1\nproperty float x\nproperty float y\nproperty float z\nproperty list uchar int l\nend_header\n"),
        Err(PlyError::ListOnVertices)
    ));
    assert!(matches!(load(b"ply\nproperty float x\nend_header\n"), Err(PlyError::PropertyOutsideElement)));
    assert!(matches!(load(b"ply\nelement vertex 1\nproperty quad x\nend_header\n"), Err(PlyError::UnknownType(_))));
    assert!(matches!(load(b"ply\nelement\nend_header\n"), Err(PlyError::ElementWithoutName)));
    assert!(matches!(load(b"ply\nelement vertex lots\nend_header\n"), Err(PlyError::ElementWithoutCount)));
    assert!(matches!(load(b"ply\nelement vertex 1\nproperty\nend_header\n"), Err(PlyError::PropertyWithoutType)));
    assert!(matches!(load(b"ply\nelement vertex 1\nproperty list int\nend_header\n"), Err(PlyError::MalformedList)));
    assert!(matches!(load(b"ply\nelement vertex 1\nproperty float\nend_header\n"), Err(PlyError::PropertyWithoutName)));
    assert!(matches!(load(&[b'p', b'l', b'y', 0xff, b'\n', b'e', b'n', b'd', b'_', b'h', b'e', b'a', b'd', b'e', b'r']), Err(PlyError::HeaderNotUtf8)));
}

#[test]
fn long_faces_and_bad_indices_are_refused() {
    let mut b = header(
        "ply\nformat binary_little_endian 1.0\nelement vertex 3\nproperty uchar x\nproperty uchar y\nproperty uchar z\nelement face 1\nproperty list uchar int vertex_indices\nend_header\n",
    );
    b.extend_from_slice(&[0; 9]);
    let mut long = b.clone();
    long.push(65);
    assert!(matches!(load(&long), Err(PlyError::UnreasonableFaceLength)));
    b.push(3);
    for i in [0i32, 1, 3] {
        b.extend_from_slice(&i.to_le_bytes());
    }
    assert!(matches!(load(&b), Err(PlyError::FaceIndexOutOfRange)));
}

#[test]
fn other_elements_are_skipped() {
    let mut b = header(
        "ply\nformat binary_little_endian 1.0\ncomment made by hand\nelement material 2\nproperty short k\nproperty list uchar uchar junk\nelement vertex 3\nproperty uchar x\nproperty uchar y\nproperty uchar z\nelement face 1\nproperty list uchar int vertex_indices\nend_header\n",
    );
    b.extend_from_slice(&[1, 0, 2, 9, 9, 2, 0, 0]);
    b.extend_from_slice(&[0, 0, 0, 1, 0, 0, 0, 1, 0]);
    b.push(3);
    for i in [0i32, 1, 2] {
        b.extend_from_slice(&i.to_le_bytes());
    }
    let m = mesh_of(load(&b));
    assert_eq!(m.indices, vec![0, 1, 2]);
}

fn num(v: f64) -> AsciiNum {
    AsciiNum { as_i64: v as i64, as_usize: v as usize, f32_bits: (v as f32).to_bits() }
}

fn ascii_tokens(words: &[Vec<char>]) -> Vec<AsciiToken> {
    words
        .iter()
        .map(|w| {
            let s: String = w.iter().collect();
            AsciiToken { text: w.clone(), value: s.parse::<f64>().ok().map(num) }
        })
        .collect()
}

#[test]
fn ascii_body_gives_its_tokens_and_reads() {
    let text = "ply\nformat ascii 1.0\nelement vertex 3\nproperty float x\nproperty float y\nproperty float z\nelement face 1\nproperty list uchar int vertex_indices\nend_header\n0 0 0\n1 0 0\n0 1.5 0\n3 0 1 2\n";
    let (words, elems) = match load(text.as_bytes()) {
        Ok(PlyLoad::Ascii(w, e)) => (w, e),
        _ => panic!("expected an ASCII body"),
    };
    assert_eq!(words.len(), 13);
    let m = load_ascii(&ascii_tokens(&words), &elems).unwrap();
    assert_eq!(m.indices, vec![0, 1, 2]);
    assert_eq!(m.positions[2].y.raw, 1.5f32.to_bits() as u64);
    assert_eq!(m.positions[2].y.ty, PlyType::Float);
}

#[test]
fn ascii_errors() {
    let head = "ply\nformat ascii 1.0\nelement vertex 3\nproperty float x\nproperty float y\nproperty float z\nelement face 1\nproperty list uchar int vertex_indices\nend_header\n";
    let run = |body: &str| {
        let text = format!("{head}{body}");
        match load(text.as_bytes()) {
            Ok(PlyLoad::Ascii(w, e)) => load_ascii(&ascii_tokens(&w), &e),
            Ok(PlyLoad::Mesh(_)) => panic!("binary?"),
            Err(e) => Err(e),
        }
    };
    assert!(matches!(run("0 0 0\n1 0 0\n0 1 0\n3 0 1\n"), Err(PlyError::Truncated)));
    assert!(matches!(run("0 0 0\n1 zz 0\n0 1 0\n3 0 1 2\n"), Err(PlyError::InvalidNumber(t)) if t == vec!['z', 'z']));
    assert!(matches!(run("0 0 0\n1 0 0\n0 1 0\n3 0 1 7\n"), Err(PlyError::FaceIndexOutOfRange)));
    let mut bad = head.as_bytes().to_vec();
    bad.push(0xff);
    assert!(matches!(load(&bad), Err(PlyError::BodyNotUtf8)));
}

#[test]
fn header_end_and_header() {
    assert_eq!(find_header_end(b"ply\nend_header\nrest").unwrap(), 15);
    assert_eq!(find_header_end(b"ply\nend_header").unwrap(), 14);
    let text: Vec<char> = "ply\nformat ascii 1.0\nelement vertex 2\nproperty list uchar int idx\n".chars().collect();
    let (f, elems) = parse_header(&text).unwrap();
    assert!(matches!(f, PlyFormat::Ascii));
    assert_eq!(elems.len(), 1);
    assert_eq!(elems[0].count, 2);
    assert_eq!(elems[0].props[0].list_count, Some(PlyType::UChar));
    assert_eq!(elems[0].props[0].ty, PlyType::Int);
    assert_eq!(elems[0].props[0].name, vec!['i', 'd', 'x']);
}

#[test]
fn types_parse_and_have_sizes() {
    let t = |s: &str| PlyType::parse(&s.chars().collect::<Vec<_>>());
    assert_eq!(t("uint8"), Some(PlyType::UChar));
    assert_eq!(t("float64"), Some(PlyType::Double));
    assert_eq!(t("int16"), Some(PlyType::Short));
    assert_eq!(t("half"), None);
    assert_eq!(PlyType::Double.size(), 8);
    assert_eq!(PlyType::UShort.size(), 2);
    assert_eq!(PlyType::Int.size(), 4);
}

#[test]
fn save_writes_a_binary_file_that_loads_back() {
    let pos = [[0.0f32.to_bits(), 0, 0], [1.0f32.to_bits(), 0, 0], [0, 2.5f32.to_bits(), 0]];
    let nrm = [[0, 0, 1.0f32.to_bits()]; 3];
    let bytes = save(&pos, &nrm, &[0, 1, 2]);
    let head = "ply\nformat binary_little_endian 1.0\nelement vertex 3\nproperty float x\nproperty float y\nproperty float z\nproperty float nx\nproperty float ny\nproperty float nz\nelement face 1\nproperty list uchar int vertex_indices\nend_header\n";
    assert!(bytes.starts_with(head.as_bytes()));
    assert_eq!(bytes.len(), head.len() + 3 * 24 + 13);
    let m = mesh_of(load(&bytes));
    assert_eq!(m.indices, vec![0, 1, 2]);
    assert_eq!(m.positions[2].y.raw, 2.5f32.to_bits() as u64);
    assert_eq!(m.positions[1].x.raw, 1.0f32.to_bits() as u64);
}

#[test]
fn binary_body_direct() {
    let text: Vec<char> = "ply\nformat binary_little_endian 1.0\nelement vertex 3\nproperty uchar x\nproperty uchar y\nproperty uchar z\nelement face 1\nproperty list uchar uint vertex_indices\n".chars().collect();
    let (_, elems) = parse_header(&text).unwrap();
    let mut body = vec![0, 0, 0, 5, 0, 0, 0, 5, 0, 3];
    for i in [2u32, 1, 0] {
        body.extend_from_slice(&i.to_le_bytes());
    }
    let m = load_binary(&body, &elems).unwrap();
    assert_eq!(m.indices, vec![2, 1, 0]);
    assert_eq!(m.positions[1].x.raw, 5);
}
