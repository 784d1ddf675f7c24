use scanimprover::geom::cleanup::{compact_indices, remove_degenerate_faces};

#[test]
fn vertices_are_renumbered_by_first_use() {
    let (order, ind) = compact_indices(6, &[4, 2, 5, 2, 4, 0]);
    assert_eq!(order, vec![4, 2, 5, 0]);
    assert_eq!(ind, vec![0, 1, 2, 1, 0, 3]);
    let (order, ind) = compact_indices(3, &[]);
    assert!(order.is_empty() && ind.is_empty());
}

#[test]
fn degenerate_faces_and_unused_vertices_go() {
    // Triangle 1 repeats a vertex, triangle 2 is flat; vertex 5 is unused.
    let ind = [0, 1, 2, 2, 2, 3, 1, 3, 4, 3, 4, 0];
    let (order, out) = remove_degenerate_faces(&ind, 6, &[false, false, true, false]).unwrap();
    assert_eq!(order, vec![0, 1, 2, 3, 4]);
    assert_eq!(out, vec![0, 1, 2, 3, 4, 0]);
    // Everything degenerate: nothing remains.
    let (order, out) = remove_degenerate_faces(&[0, 0, 1], 2, &[false]).unwrap();
    assert!(order.is_empty() && out.is_empty());
    // An empty mesh stays as it is.
    assert!(remove_degenerate_faces(&[], 4, &[]).is_none());
}
