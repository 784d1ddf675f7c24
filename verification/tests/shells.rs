use scanimprover::geom::shells::{find_shells, manifold_dual_exec, remove_small_components};

fn tetrahedron(base: u32) -> Vec<u32> {
    [0, 1, 2, 0, 3, 1, 1, 3, 2, 2, 3, 0].iter().map(|&i| i + base).collect()
}

#[test]
fn dual_rows_follow_the_edge_keys() {
    let rows = manifold_dual_exec(&tetrahedron(0));
    assert_eq!(rows, vec![vec![1, 3, 2], vec![0, 3, 2], vec![0, 1, 3], vec![0, 1, 2]]);
    // Three triangles on one edge link nothing across it.
    let rows = manifold_dual_exec(&[0, 1, 2, 1, 0, 3, 0, 1, 4]);
    assert_eq!(rows, vec![Vec::<u32>::new(); 3]);
}

#[test]
fn shells_are_found_breadth_first() {
    let rows = vec![vec![2], vec![3], vec![0, 4], vec![1], vec![2]];
    assert_eq!(find_shells(&rows), vec![vec![0, 2, 4], vec![1, 3]]);
    assert!(find_shells(&Vec::new()).is_empty());
}

#[test]
fn debris_is_removed_and_the_rest_renumbered() {
    // A tetrahedron (4 triangles), a lone triangle, and an unused vertex 7.
    let mut ind = tetrahedron(0);
    ind.extend_from_slice(&[4, 5, 6]);
    let (order, out) = remove_small_components(&ind, 8, false, 0).unwrap();
    assert_eq!(order, vec![0, 1, 2, 3]);
    assert_eq!(out, vec![0, 1, 2, 0, 3, 1, 2, 3, 0, 1, 3, 2]);
    // Keeping only the largest gives the same here.
    let (order2, out2) = remove_small_components(&ind, 8, true, 0).unwrap();
    assert_eq!((order2, out2), (order, out));
    // A threshold above the tetrahedron removes it as well.
    let (order, out) = remove_small_components(&ind, 8, false, 5).unwrap();
    assert!(order.is_empty() && out.is_empty());
}

#[test]
fn larger_shells_come_first() {
    // A lone triangle first, then a tetrahedron: the tetrahedron leads.
    let mut ind = vec![8, 9, 10];
    ind.extend(tetrahedron(0));
    let (order, out) = remove_small_components(&ind, 11, false, 1).unwrap();
    assert_eq!(order, vec![0, 1, 2, 3]);
    assert_eq!(out.len(), 12);
    // One shell, or none: nothing to do.
    assert!(remove_small_components(&tetrahedron(0), 4, false, 0).is_none());
    assert!(remove_small_components(&[], 0, true, 0).is_none());
}
