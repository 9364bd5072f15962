use fluxel::enums::{Axis, Direction};
use fluxel::export::FaceTopology;
use fluxel::forest::Forest;

#[test]
fn two_cell_topology_has_one_interior_face() {
    let mut forest = Forest::new([2, 1, 1]);
    forest.populate_root_cells();
    let t = forest.face_topology();
    assert_eq!(t.internal_faces_owner, vec![0]);
    assert_eq!(t.internal_faces_neighbour, vec![1]);
    assert_eq!(t.internal_faces_axis, vec![Axis::X]);
    // Cell 0: -X, -Y, +Y, -Z, +Z; cell 1: +X, -Y, +Y, -Z, +Z.
    assert_eq!(t.domain_bnd_faces_owner, vec![0, 0, 0, 0, 0, 1, 1, 1, 1, 1]);
    assert_eq!(
        t.domain_bnd_faces_dir,
        vec![
            Direction::XMinus,
            Direction::YMinus,
            Direction::YPlus,
            Direction::ZMinus,
            Direction::ZPlus,
            Direction::XPlus,
            Direction::YMinus,
            Direction::YPlus,
            Direction::ZMinus,
            Direction::ZPlus,
        ]
    );
}

#[test]
fn refined_neighbour_gives_four_interior_faces() {
    let mut forest = Forest::new([2, 1, 1]);
    forest.populate_root_cells();
    forest.refine_by_flags(&[false, true]);
    let t = forest.face_topology();
    // Tree 0 touches the four -X children of tree 1 across its +X face.
    let from_root: Vec<usize> = t
        .internal_faces_owner
        .iter()
        .zip(t.internal_faces_neighbour.iter())
        .filter(|(o, _)| **o == 0)
        .map(|(_, n)| *n)
        .collect();
    assert_eq!(from_root.len(), 4);
    for n in from_root {
        assert_eq!(forest.keys()[n].level(), 1);
    }
    // Each interior face among the children is recorded once, on its plus side: 12 of them.
    let among_children = t.internal_faces_owner.iter().filter(|o| **o >= 1).count();
    assert_eq!(among_children, 12);
    // 6 boundary faces of the root less its +X face, plus 4 * 5 outer child faces.
    assert_eq!(t.domain_bnd_faces_owner.len(), 5 + 20);
}

#[test]
fn empty_topology_has_no_faces() {
    let t = FaceTopology::new();
    assert!(t.internal_faces_owner.is_empty());
    assert!(t.domain_bnd_faces_dir.is_empty());
    let forest = Forest::new([1, 1, 1]);
    let t2 = forest.face_topology();
    assert!(t2.internal_faces_axis.is_empty());
    assert!(t2.domain_bnd_faces_owner.is_empty());
}

#[test]
fn grid_without_z_layers_has_no_cells_or_faces() {
    let mut forest = Forest::new([2, 1, 0]);
    forest.populate_root_cells();
    assert_eq!(forest.num_cells(), 0);
    forest.enforce_2_to_1_balance();
    let t = forest.face_topology();
    assert!(t.internal_faces_owner.is_empty());
    assert!(t.domain_bnd_faces_owner.is_empty());
}
