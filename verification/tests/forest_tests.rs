use fluxel::enums::Direction;
use fluxel::forest::Forest;
use fluxel::key::{Key, LogicalCell};
use fluxel::MAX_LEVEL;

#[test]
fn test_resolve_coord_cross_tree() {
    // Two trees along +X
    let forest = Forest::new([2, 1, 1]);

    let logical_max = (1i64 << MAX_LEVEL) - 1;

    // Cross tree 0's X+ face → tree 1 at x = 0
    let res1 = forest.resolve_coord(0, logical_max + 1, 0, 0).unwrap();
    assert_eq!(res1, (1, 0, 0, 0));

    // Cross tree 1's X- face → tree 0 at x = logical_max
    let res2 = forest.resolve_coord(1, -1, 0, 0).unwrap();
    assert_eq!(res2, (0, logical_max as u32, 0, 0));

    // Cross tree 1's X+ face → outside the domain
    let res3 = forest.resolve_coord(1, logical_max + 1, 0, 0);
    assert!(res3.is_none());
}

#[test]
fn test_face_neighbours_different_levels() {
    let mut forest = Forest::new([1, 1, 1]);
    forest.populate_root_cells();

    // 1. Refine the whole domain to L=1 (8 cells)
    forest.refine_by_flags(&[true]);

    // 2. Refine one cell on the +X side (child_1) to L=2 — in Morton order it is index 1
    let mut refine_flags = vec![false; 8];
    refine_flags[1] = true;
    forest.refine_by_flags(&refine_flags);

    // keys has 15 cells (7 at L=1 and 8 at L=2)
    assert_eq!(forest.num_cells(), 15);

    // Neighbours across the X+ face of child_0 (index 0, L=1, front-lower-left)
    let child_0_key = forest.keys()[0];
    let neighbours = forest.neighbours_covering_face(child_0_key, Direction::XPlus);

    // child_1 was refined to L=2, so child_0's X+ face should touch four L=2 cells
    assert_eq!(neighbours.len(), 4);
    neighbours
        .into_iter()
        .for_each(|n| assert_eq!(n.level(), 2));
}

#[test]
fn test_find_cell_containing() {
    // The L=0 root split by hand: only three of its eight children are present, leaving gaps.
    let root = Key::root(0);
    let child_keys = root.children();

    let mut keys = vec![child_keys[0], child_keys[1], child_keys[7]];
    keys.sort();
    let forest = Forest::from_keys([1, 1, 1], keys).unwrap();

    // Search for a point inside child_keys[0]
    let found = forest.find_cell_containing(0, 100, 100, 100).unwrap();
    assert_eq!(found, child_keys[0]);

    // Search for a point inside child_keys[7] (coordinates > 2^31)
    let mid = 1u32 << 31;
    let found2 = forest
        .find_cell_containing(0, mid + 100, mid + 100, mid + 100)
        .unwrap();
    assert_eq!(found2, child_keys[7]);

    // Sparse gap: no cell owns this region.
    let not_found = forest.find_cell_containing(0, 100, mid + 100, 100);
    assert!(not_found.is_none());
}

#[test]
fn test_refine_and_coarsen() {
    let mut forest = Forest::new([1, 1, 1]);
    forest.populate_root_cells(); // Single L=0 cell

    assert_eq!(forest.num_cells(), 1);

    // --- Refine ---
    // Split the L=0 cell into L=1 (8 cells)
    forest.refine_by_flags(&[true]);
    assert_eq!(forest.num_cells(), 8);

    // Refine only the first cell to L=2
    // First cell becomes 8 cells; the other 7 stay → 8 + 7 = 15 cells
    let mut refine_flags = vec![false; 8];
    refine_flags[0] = true;
    forest.refine_by_flags(&refine_flags);
    assert_eq!(forest.num_cells(), 15);

    // First 8 keys should be L=2; the rest L=1
    (0..8).for_each(|i| assert_eq!(forest.keys()[i].level(), 2));
    (8..15).for_each(|i| assert_eq!(forest.keys()[i].level(), 1));

    // --- Coarsen ---
    // Set all flags true on purpose (trailing L=1 cells without full sibling sets should not coarsen)
    let coarsen_flags = vec![true; 15];
    forest.coarsen_by_flags(&coarsen_flags);

    // First 8 merge to 1; the other 7 unchanged → 1 + 7 = 8 cells
    assert_eq!(forest.num_cells(), 8);
    assert_eq!(forest.keys()[0].level(), 1);

    // Coarsen with all flags true again: eight L=1 siblings are complete → back to L=0
    let coarsen_flags_2 = vec![true; 8];
    forest.coarsen_by_flags(&coarsen_flags_2);

    assert_eq!(forest.num_cells(), 1);
    assert_eq!(forest.keys()[0].level(), 0);
}

/// The 26 probe offsets around a cell of edge `size`, `dz` innermost, interior sample skipped.
fn probe_triples(size: i64) -> Vec<(i64, i64, i64)> {
    let half = size / 2;
    let o = [-1i64, half, size];
    let mut out = Vec::new();
    for k in 0..27usize {
        let dx = o[k / 9];
        let dy = o[(k / 3) % 3];
        let dz = o[k % 3];
        if dx != half || dy != half || dz != half {
            out.push((dx, dy, dz));
        }
    }
    out
}

/// Maximum absolute level difference found between a cell and a 26-probe neighbour.
fn compute_max_level_diff(forest: &Forest) -> u8 {
    let mut max_diff = 0;

    for i in 0..forest.keys().len() {
        let key = forest.keys()[i];
        let logical = key.to_logical();
        let size = logical.size() as i64;
        let l = logical.level;
        let cx = logical.x as i64;
        let cy = logical.y as i64;
        let cz = logical.z as i64;

        for (dx, dy, dz) in probe_triples(size) {
            let px = cx + dx;
            let py = cy + dy;
            let pz = cz + dz;

            if let Some((t_id, rx, ry, rz)) = forest.resolve_coord(logical.tree_id, px, py, pz) {
                if let Some(neighbor) = forest.find_cell_containing(t_id, rx, ry, rz) {
                    let nl = neighbor.level();
                    let diff = l.abs_diff(nl);
                    if diff > max_diff {
                        max_diff = diff;
                    }
                }
            }
        }
    }
    max_diff
}

#[test]
fn test_2_to_1_balance() {
    let mut forest = Forest::new([1, 1, 1]);
    forest.populate_root_cells();

    // L=0 -> refine the whole domain to L=1 (8 cells)
    forest.refine_by_flags(&[true]);

    // Refine only the cell that contains the origin to L=2 (not always keys[0] in SFC order)
    let mut flags2 = vec![false; forest.num_cells()];
    let i2 = forest
        .keys()
        .binary_search(&forest.find_cell_containing(0, 0, 0, 0).unwrap())
        .unwrap();
    flags2[i2] = true;
    forest.refine_by_flags(&flags2);

    // Refine the first 8 keys to L=3 so the forest has a strong level imbalance to fix
    let mut flags3 = vec![false; forest.num_cells()];
    flags3.iter_mut().take(8).for_each(|f| *f = true);
    forest.refine_by_flags(&flags3);

    // Before enforcement, some 26-probe neighbour pair should differ by at least 2 levels
    let max_level_diff_before = compute_max_level_diff(&forest);
    assert!(max_level_diff_before >= 2);

    // Apply 2:1 balance
    forest.enforce_2_to_1_balance();

    // Adjacent level difference (26-probe sampling) must be at most 1
    let max_level_diff_after = compute_max_level_diff(&forest);
    assert!(max_level_diff_after <= 1);
}

#[test]
fn populate_root_cells_emits_trees_in_id_order() {
    let mut forest = Forest::new([2, 3, 1]);
    assert_eq!(forest.num_cells(), 0);
    forest.populate_root_cells();
    assert_eq!(forest.num_cells(), 6);
    for (i, k) in forest.keys().iter().enumerate() {
        assert_eq!(*k, Key::root(i as u32));
    }
}

#[test]
fn refine_then_coarsen_restores_the_leaves() {
    let mut forest = Forest::new([2, 1, 1]);
    forest.populate_root_cells();
    let before: Vec<Key> = forest.keys().to_vec();
    forest.refine_by_flags(&[true, false]);
    assert_eq!(forest.num_cells(), 9);
    forest.coarsen_by_flags(&vec![true; 9]);
    assert_eq!(forest.keys().to_vec(), before);
}

#[test]
fn refine_with_no_flags_keeps_the_leaves() {
    let mut forest = Forest::new([1, 1, 1]);
    forest.populate_root_cells();
    forest.refine_by_flags(&[true]);
    let before: Vec<Key> = forest.keys().to_vec();
    forest.refine_by_flags(&vec![false; 8]);
    assert_eq!(forest.keys().to_vec(), before);
    forest.coarsen_by_flags(&vec![false; 8]);
    assert_eq!(forest.keys().to_vec(), before);
}

#[test]
fn uniform_refinement_multiplies_cells() {
    let mut forest = Forest::new([1, 1, 2]);
    forest.populate_root_cells();
    forest.uniform_refinement(2);
    assert_eq!(forest.num_cells(), 2 * 64);
    assert!(forest.keys().iter().all(|k| k.level() == 2));
    for w in forest.keys().windows(2) {
        assert!(w[0] < w[1]);
    }
}

#[test]
fn find_cell_containing_outside_tree_is_none() {
    let mut forest = Forest::new([1, 1, 1]);
    forest.populate_root_cells();
    assert_eq!(forest.find_cell_containing(0, 5, 6, 7), Some(Key::root(0)));
    assert!(forest.find_cell_containing(1, 5, 6, 7).is_none());
}

#[test]
fn from_keys_rejects_overlap_and_disorder() {
    let root = Key::root(0);
    let children = root.children();
    // A cell together with one of its children overlaps.
    assert!(Forest::from_keys([1, 1, 1], vec![root, children[0]]).is_none());
    // Children out of key order.
    assert!(Forest::from_keys([1, 1, 1], vec![children[1], children[0]]).is_none());
    // A key whose Morton code is not aligned to its level is no cell.
    assert!(Forest::from_keys([1, 1, 1], vec![Key::new(0, 1, 1)]).is_none());
    let ok = Forest::from_keys([1, 1, 1], children.to_vec()).unwrap();
    assert_eq!(ok.num_cells(), 8);
}

#[test]
fn face_neighbours_cross_trees_and_domain_boundary() {
    let mut forest = Forest::new([2, 1, 1]);
    forest.populate_root_cells();
    // Tree 0's +X face touches tree 1; its -X face is on the domain boundary.
    assert_eq!(forest.face_neighbour_global_ids(0, Direction::XPlus), vec![1]);
    assert!(forest.face_neighbour_global_ids(0, Direction::XMinus).is_empty());
    assert_eq!(forest.face_neighbour_global_ids(1, Direction::XMinus), vec![0]);
    assert!(forest.face_neighbour_global_ids(1, Direction::YPlus).is_empty());
    let n = forest.neighbours_covering_face(Key::root(1), Direction::XMinus);
    assert_eq!(n, vec![Key::root(0)]);
    let _ = LogicalCell::root(0);
}

#[test]
fn resolve_coord_stays_inside_a_tree() {
    let forest = Forest::new([1, 2, 1]);
    assert_eq!(forest.resolve_coord(0, 5, 6, 7), Some((0, 5, 6, 7)));
    // Crossing +Y moves to tree 1 (x + y * nx).
    assert_eq!(forest.resolve_coord(0, 5, 1i64 << 32, 7), Some((1, 5, 0, 7)));
    assert!(forest.resolve_coord(0, -1, 0, 0).is_none());
    assert!(forest.resolve_coord(0, 0, 0, 1i64 << 32).is_none());
}

#[test]
fn coarsening_the_new_children_undoes_one_refinement() {
    let mut forest = Forest::new([1, 1, 1]);
    forest.populate_root_cells();
    forest.refine_by_flags(&[true]);
    let old: Vec<Key> = forest.keys().to_vec();
    let i = 3;
    let r: Vec<bool> = (0..old.len()).map(|j| j == i).collect();
    forest.refine_by_flags(&r);
    assert_eq!(forest.num_cells(), old.len() + 7);
    let c: Vec<bool> = (0..old.len() + 7).map(|j| i <= j && j < i + 8).collect();
    forest.coarsen_by_flags(&c);
    assert_eq!(forest.keys().to_vec(), old);
}
