use scanimprover::geom::guided_fill::creases::{crease_layout, CreaseLayout};
use scanimprover::geom::guided_fill::{absorb_run, merge_short_runs, merge_shortest_run, record_patch_groups, runs_of};
use scanimprover::geom::guided_fill::patch::{check_patch_topology, PatchError};
use scanimprover::geom::guided_fill::rim::rim_topology;
use std::collections::HashSet;

#[test]
fn short_label_runs_merge_into_their_neighbours() {
    let mut lab = vec![0, 0, 0, 1, 0, 0, 2, 2, 2, 2, 3, 2];
    merge_short_runs(&mut lab, 2);
    assert_eq!(lab, vec![0, 0, 0, 0, 0, 0, 2, 2, 2, 2, 2, 2]);
    let mut single = vec![5, 5, 6];
    merge_short_runs(&mut single, 2);
    assert_eq!(single, vec![5, 5, 5]);
}

#[test]
fn runs_wrap_around_the_rim() {
    // The last run continues into the first one.
    assert_eq!(runs_of(&[1, 1, 2, 2, 2, 1]), vec![(2, 3), (5, 3)]);
    assert_eq!(runs_of(&[4, 4, 4]), vec![(0, 3)]);
    assert_eq!(runs_of(&[]), vec![(0, 0)]);
    assert_eq!(runs_of(&[1, 2, 3]), vec![(0, 1), (1, 1), (2, 1)]);
}

#[test]
fn merging_never_leaves_a_short_run() {
    let mut lab = vec![1, 2, 1, 3, 3, 3, 4, 3, 3, 5];
    merge_short_runs(&mut lab, 2);
    let runs = runs_of(&lab);
    assert!(runs.len() <= 1 || runs.iter().all(|&(_, l)| l >= 2), "{lab:?}");
    // Only labels that were there remain.
    assert!(lab.iter().all(|l| [1, 2, 3, 4, 5].contains(l)));
}

#[test]
fn shortest_run_goes_to_its_neighbour() {
    let mut lab = vec![7, 7, 7, 8, 9, 9];
    assert!(merge_shortest_run(&mut lab));
    assert_eq!(lab, vec![7, 7, 7, 7, 9, 9]);
    assert_eq!(runs_of(&lab).len(), 2);
    let mut one = vec![3, 3];
    assert!(!merge_shortest_run(&mut one));
    assert_eq!(one, vec![3, 3]);
}

#[test]
fn absorbed_run_takes_a_neighbouring_label() {
    let mut lab = vec![1, 1, 2, 3, 3, 3];
    let runs = runs_of(&lab);
    let ri = runs.iter().position(|&(s, _)| s == 2).unwrap();
    absorb_run(&mut lab, &runs, ri);
    // The longer neighbour wins.
    assert_eq!(lab, vec![1, 1, 3, 3, 3, 3]);
    assert_eq!(lab.iter().filter(|&&l| l == 2).count(), 0);
}

#[test]
fn patch_triangles_join_their_groups() {
    let group_ids = vec![3, 7, 3];
    let mut group_tris: Vec<Vec<u32>> = vec![vec![0, 1], vec![2], vec![]];
    let mut ids: Vec<i32> = vec![3, 3, 7];
    record_patch_groups(&group_ids, &mut group_tris, &mut ids, 3, &[7, -1, 3, 9, 3]);
    assert_eq!(ids, vec![3, 3, 7, 7, -1, 3, 9, 3]);
    // Triangle 5 and 7 go to the first group of id 3, triangle 3 to id 7;
    // the ungrouped one and the unknown id 9 go nowhere.
    assert_eq!(group_tris, vec![vec![0, 1, 5, 7], vec![2, 3], vec![]]);
}

#[test]
fn rim_edges_find_their_triangles_and_chords_are_listed() {
    // Rim 0 -> 1 -> 2 -> 3 -> 0.
    let hv: Vec<u32> = vec![0, 1, 2, 3];
    let indices: Vec<u32> = vec![
        0, 1, 4, // runs rim edge 0
        2, 3, 5, // runs rim edge 2
        0, 2, 6, // side 0 -> 2 is a chord
        3, 0, 7, // runs rim edge 3
        1, 0, 8, // runs rim edge 0 backwards: neither owner nor chord
    ];
    let (owners, chords) = rim_topology(&indices, 9, &hv);
    assert_eq!(owners, vec![Some(0), None, Some(1), Some(3)]);
    assert_eq!(chords.len(), 1);
    assert!(chords.contains(&((0u64 << 32) | 2)));
}

#[test]
fn after_merging_no_short_run_is_left() {
    let mut lab = vec![0, 1, 2, 3, 4, 5, 6, 7, 8, 9];
    merge_short_runs(&mut lab, 3);
    let runs = runs_of(&lab);
    assert!(runs.len() < 2 || runs.iter().all(|r| r.1 >= 3), "{:?}", runs);
    let mut lab = vec![5, 5, 5, 5, 1, 2, 2, 2, 2, 3, 4, 4, 4];
    merge_short_runs(&mut lab, 3);
    let runs = runs_of(&lab);
    assert!(runs.len() < 2 || runs.iter().all(|r| r.1 >= 3), "{:?}", runs);
}

#[test]
fn a_patch_closing_its_rim_passes() {
    let none: HashSet<u64> = HashSet::new();
    assert_eq!(check_patch_topology(&[[0, 2, 1]], &[false], 3, &none), Ok(vec![0, 0, 0]));
    let quad = [[0, 2, 1], [0, 3, 2]];
    assert_eq!(check_patch_topology(&quad, &[false, false], 4, &none), Ok(vec![0, 0, 1, 1]));
}

#[test]
fn patch_errors_come_in_their_order() {
    let none: HashSet<u64> = HashSet::new();
    assert_eq!(check_patch_topology(&[[0, 2, 1]], &[true], 3, &none), Err(PatchError::Degenerate));
    assert_eq!(
        check_patch_topology(&[[0, 2, 1], [0, 2, 1]], &[false, false], 3, &none),
        Err(PatchError::NotManifold)
    );
    // A triangle is looked at before its sides.
    assert_eq!(
        check_patch_topology(&[[0, 2, 1], [0, 2, 1]], &[false, true], 3, &none),
        Err(PatchError::Degenerate)
    );
    assert_eq!(check_patch_topology(&[[0, 1, 2]], &[false], 3, &none), Err(PatchError::NotClosed));
    // The diagonal 0 - 2 of a square rim is already an edge of the mesh.
    let mut chords: HashSet<u64> = HashSet::new();
    chords.insert(2);
    let quad = [[0, 2, 1], [0, 3, 2]];
    assert_eq!(check_patch_topology(&quad, &[false, false], 4, &chords), Err(PatchError::DuplicatesEdge));
    // A side that nothing runs back leaves the patch open.
    assert_eq!(check_patch_topology(&[[0, 2, 1], [0, 4, 3]], &[false, false], 4, &none), Err(PatchError::NotClosed));
}

#[test]
fn two_surfaces_give_one_crease() {
    assert_eq!(crease_layout(&[0, 0, 1, 1]), Some(CreaseLayout::Paired(vec![(0, 2, 0, 1)])));
    assert_eq!(crease_layout(&[5, 5, 5]), Some(CreaseLayout::Paired(vec![])));
}

#[test]
fn creases_come_in_label_pair_order() {
    assert_eq!(
        crease_layout(&[1, 1, 2, 2, 0, 0, 2, 2]),
        Some(CreaseLayout::Paired(vec![(4, 6, 0, 2), (0, 2, 1, 2)]))
    );
}

#[test]
fn three_surfaces_meet_at_a_corner() {
    assert_eq!(
        crease_layout(&[0, 1, 2]),
        Some(CreaseLayout::Corner(vec![(0, 0, 2), (1, 0, 1), (2, 1, 2)]))
    );
}

#[test]
fn unsupported_label_layouts_are_refused() {
    // The same two labels meet four times.
    assert_eq!(crease_layout(&[0, 1, 0, 1]), None);
    // Every pair meets twice, but a pair is crossed twice the same way.
    assert_eq!(crease_layout(&[0, 1, 2, 0, 1, 2]), None);
}
