use scanimprover::geom::orient::{turn_shells, unify_windings};

#[test]
fn a_face_walking_an_edge_the_same_way_is_flipped() {
    let (ind, shells) = unify_windings(&[0, 1, 2, 0, 1, 3]);
    assert_eq!(ind, vec![0, 1, 2, 0, 3, 1]);
    assert_eq!(shells, vec![vec![0, 1]]);
    // Already consistent: nothing changes.
    let (ind, _) = unify_windings(&[0, 1, 2, 1, 0, 3]);
    assert_eq!(ind, vec![0, 1, 2, 1, 0, 3]);
}

#[test]
fn a_tetrahedron_with_one_reversed_face_is_repaired() {
    let (ind, shells) = unify_windings(&[0, 1, 2, 0, 1, 3, 1, 3, 2, 2, 3, 0]);
    assert_eq!(ind, vec![0, 1, 2, 0, 3, 1, 1, 3, 2, 2, 3, 0]);
    assert_eq!(shells, vec![vec![0, 1, 2, 3]]);
}

#[test]
fn separate_pieces_are_separate_shells() {
    let (ind, shells) = unify_windings(&[0, 1, 2, 3, 4, 5, 3, 4, 6]);
    assert_eq!(ind, vec![0, 1, 2, 3, 4, 5, 3, 6, 4]);
    assert_eq!(shells, vec![vec![0], vec![1, 2]]);
    let (ind, shells) = unify_windings(&[]);
    assert!(ind.is_empty() && shells.is_empty());
}

#[test]
fn inward_shells_are_turned_over() {
    let mut ind = vec![0, 1, 2, 3, 4, 5, 3, 6, 4];
    let shells = vec![vec![0], vec![1, 2]];
    turn_shells(&mut ind, &shells, &[false, true]);
    assert_eq!(ind, vec![0, 1, 2, 3, 5, 4, 3, 4, 6]);
}

#[test]
fn sides_are_looked_up_in_the_winding_read_in() {
    // Triangle 2 is flipped on the way; the side it then walks from 3 to 1
    // is looked up as it was read in, where only triangle 2 walks 1 -> 3,
    // so triangle 1 is not reached from it and starts a shell of its own.
    let (ind, shells) = unify_windings(&[0, 1, 2, 3, 1, 4, 0, 1, 3]);
    assert_eq!(ind, vec![0, 1, 2, 3, 1, 4, 0, 3, 1]);
    assert_eq!(shells, vec![vec![0, 2], vec![1]]);
}

#[test]
fn consistently_wound_tetrahedron_comes_back_unchanged() {
    let ind = vec![0, 2, 1, 0, 1, 3, 1, 2, 3, 0, 3, 2];
    let (out, shells) = unify_windings(&ind);
    assert_eq!(out, ind);
    assert_eq!(shells.len(), 1);
    assert_eq!(shells[0].len(), 4);
}
