use fluxel::enums::{Axis, Direction};
use fluxel::flood::{flood_fill_from_seed, CellType, FloodFillError};
use fluxel::forest::Forest;
use fluxel::ibm::{
    face_needs_raycast, ghost_fluid_mask, has_under_refined_intersect_cells, inside_by_parity_vote,
    unique_fluid_cells,
};

/// Locates a physical point of the box `[min, max]` split into `base_res` trees, the way the
/// pipeline maps a world-space seed to a leaf.
fn locate(forest: &Forest, min: [f64; 3], max: [f64; 3], base_res: [u32; 3], p: [f64; 3]) -> Option<usize> {
    let mut tree = [0u32; 3];
    let mut local = [0u32; 3];
    for a in 0..3 {
        let size = (max[a] - min[a]) / base_res[a] as f64;
        let d = p[a] - min[a];
        if d < 0.0 {
            return None;
        }
        tree[a] = (d / size) as u32;
        if tree[a] >= base_res[a] {
            return None;
        }
        let l = d % size;
        local[a] = ((l / size) * (1u64 << 32) as f64) as u32;
    }
    forest.global_id_from_logical(tree, local)
}

#[test]
fn err_when_seed_outside_domain() {
    let mut forest = Forest::new([1, 1, 1]);
    forest.populate_root_cells();
    let mut types = vec![CellType::Solid];

    let seed = locate(&forest, [0.0, 0.0, 0.0], [1.0, 1.0, 1.0], [1, 1, 1], [2.0, 0.5, 0.5]);
    let err = flood_fill_from_seed(&forest, &mut types, seed).unwrap_err();
    assert!(err.message().contains("outside"));
}

#[test]
fn err_when_seed_on_intersect_cell() {
    let mut forest = Forest::new([1, 1, 1]);
    forest.populate_root_cells();
    let mut types = vec![CellType::Intersect];

    let seed = locate(&forest, [0.0, 0.0, 0.0], [1.0, 1.0, 1.0], [1, 1, 1], [0.5, 0.5, 0.5]);
    assert!(flood_fill_from_seed(&forest, &mut types, seed).is_err());
}

#[test]
fn fills_single_solid_cell_from_interior_seed() {
    let mut forest = Forest::new([1, 1, 1]);
    forest.populate_root_cells();
    let mut types = vec![CellType::Solid];

    let seed = locate(&forest, [0.0, 0.0, 0.0], [1.0, 1.0, 1.0], [1, 1, 1], [0.5, 0.5, 0.5]);
    flood_fill_from_seed(&forest, &mut types, seed).unwrap();
    assert_eq!(types[0], CellType::Fluid);
}

#[test]
fn ghost_geometry_after_flood_produces_consistent_gc_is_fluid() {
    let mut forest = Forest::new([2, 1, 1]);
    forest.populate_root_cells();
    // The immersed surface lies far outside the domain: no leaf intersects it.
    let mut cell_types = vec![CellType::Solid, CellType::Solid];
    let seed = locate(&forest, [0.0, 0.0, 0.0], [1.0, 1.0, 1.0], [2, 1, 1], [0.75, 0.5, 0.5]);
    assert_eq!(seed, Some(1));
    flood_fill_from_seed(&forest, &mut cell_types, seed).unwrap();

    let gc_is_fluid = ghost_fluid_mask(&cell_types, &[false, false], false);

    assert_eq!(gc_is_fluid.len(), 2);
    assert!(gc_is_fluid.iter().any(|&f| f));
    assert!(forest.ghost_cell_ids(&gc_is_fluid).is_empty());
}

#[test]
fn flood_fill_stops_at_intersect_barrier() {
    let mut forest = Forest::new([3, 1, 1]);
    forest.populate_root_cells();
    let mut types = vec![CellType::Solid, CellType::Intersect, CellType::Fluid];
    flood_fill_from_seed(&forest, &mut types, Some(0)).unwrap();
    // The far cell is not reachable past the wall and becomes solid.
    assert_eq!(types, vec![CellType::Fluid, CellType::Intersect, CellType::Solid]);
}

#[test]
fn flood_fill_errors_leave_types_untouched() {
    let mut forest = Forest::new([2, 1, 1]);
    forest.populate_root_cells();
    let mut types = vec![CellType::Intersect, CellType::Fluid];
    assert_eq!(flood_fill_from_seed(&forest, &mut types, Some(0)), Err(FloodFillError::SeedOnIntersect));
    assert_eq!(flood_fill_from_seed(&forest, &mut types, None), Err(FloodFillError::SeedOutsideDomain));
    assert_eq!(types, vec![CellType::Intersect, CellType::Fluid]);
    assert!(FloodFillError::SeedOnIntersect.message().contains("intersect"));
}

#[test]
fn global_id_from_logical_finds_leaf_index() {
    let mut forest = Forest::new([2, 1, 1]);
    forest.populate_root_cells();
    forest.refine_by_flags(&[false, true]);
    // Tree 0 is one leaf; tree 1 holds the eight children, child 7 last.
    assert_eq!(forest.global_id_from_logical([0, 0, 0], [7, 7, 7]), Some(0));
    let high = (1u32 << 31) + 5;
    assert_eq!(forest.global_id_from_logical([1, 0, 0], [high, high, high]), Some(8));
    assert_eq!(forest.global_id_from_logical([1, 0, 0], [high, 0, 0]), Some(2));
    assert_eq!(forest.global_id_from_logical([2, 0, 0], [0, 0, 0]), None);
    assert_eq!(forest.global_id_from_logical([0, 1, 0], [0, 0, 0]), None);
}

#[test]
fn refine_intersecting_refines_band_below_target() {
    let mut forest = Forest::new([2, 1, 1]);
    forest.populate_root_cells();
    let types = vec![CellType::Intersect, CellType::Fluid];
    assert!(has_under_refined_intersect_cells(&forest, &types, 1));
    assert!(!has_under_refined_intersect_cells(&forest, &types, 0));
    assert!(forest.refine_intersecting(&types, 1));
    assert_eq!(forest.num_cells(), 9);
    assert!(forest.keys()[..8].iter().all(|k| k.level() == 1));
    // Nothing left below the target level: the forest is unchanged.
    let mut types2 = vec![CellType::Intersect; 8];
    types2.push(CellType::Fluid);
    let before = forest.keys().to_vec();
    assert!(!forest.refine_intersecting(&types2, 1));
    assert_eq!(forest.keys().to_vec(), before);
}

#[test]
fn refine_intersecting_without_flags_keeps_forest() {
    let mut forest = Forest::new([2, 1, 1]);
    forest.populate_root_cells();
    let before = forest.keys().to_vec();
    assert!(!forest.refine_intersecting(&[CellType::Solid, CellType::Fluid], 3));
    assert_eq!(forest.keys().to_vec(), before);
}

#[test]
fn ghost_cells_are_solid_leaves_next_to_fluid() {
    let mut forest = Forest::new([3, 1, 1]);
    forest.populate_root_cells();
    let fluid = [true, false, false];
    assert!(forest.is_ghost_cell(&fluid, 1));
    assert!(!forest.is_ghost_cell(&fluid, 0));
    assert!(!forest.is_ghost_cell(&fluid, 2));
    assert_eq!(forest.ghost_cell_ids(&fluid), vec![1]);
    assert_eq!(forest.ghost_cell_ids(&[false, true, false]), vec![0, 2]);
}

#[test]
fn parity_vote_needs_seven_odd_counts() {
    assert!(inside_by_parity_vote(&[1, 1, 1, 1, 1, 1, 1, 0, 0, 0, 0, 0, 0]));
    assert!(!inside_by_parity_vote(&[1, 1, 1, 1, 1, 1, 2, 0, 0, 0, 0, 0, 0]));
    assert!(inside_by_parity_vote(&[3, 5, 7, 9, 11, 13, 15, 2, 2, 2, 2, 2, 2]));
    assert!(!inside_by_parity_vote(&[]));
}

#[test]
fn ghost_fluid_mask_matches_seed_side() {
    let types = [CellType::Fluid, CellType::Solid, CellType::Intersect, CellType::Intersect];
    let inside = [false, true, true, false];
    assert_eq!(ghost_fluid_mask(&types, &inside, true), vec![true, false, true, false]);
    assert_eq!(ghost_fluid_mask(&types, &inside, false), vec![true, false, false, true]);
}

#[test]
fn unique_fluid_cells_keeps_first_occurrences() {
    let fluid = [true, false, true, true];
    let cands = [Some(2), None, Some(1), Some(2), Some(0), Some(3), Some(0), None];
    assert_eq!(unique_fluid_cells(&cands, &fluid), vec![2, 0, 3]);
    assert!(unique_fluid_cells(&[None, Some(1)], &fluid).is_empty());
}

#[test]
fn face_raycast_when_either_side_intersects() {
    let types = [CellType::Fluid, CellType::Intersect, CellType::Solid];
    assert!(face_needs_raycast(&types, 0, 1));
    assert!(face_needs_raycast(&types, 1, 2));
    assert!(!face_needs_raycast(&types, 0, 2));
    let _ = (Axis::X, Direction::XPlus);
}
