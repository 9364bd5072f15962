//! Face-adjacent neighbours and multi-block coordinate wrapping.

use vstd::prelude::*;
use crate::enums::Direction;
use crate::forest::{Forest, grid_trees};
use crate::key::{Key, LogicalCell, cell_of_key, key_is_cell, key_level, lemma_edge_range, TREE_LIMIT};
use crate::ibm::{tree_index, lemma_tree_index_decode};
use crate::query::{leaf_at, strictly_sorted, lemma_leaves_strictly_sorted, search_keys};

verus! {

/// Edge length `2^32` of a tree's logical cube.
pub open spec fn tree_extent() -> int {
    0x1_0000_0000int
}

/// Maps global logical coordinates, relative to tree `tree_id`, to `(tree_id, x, y, z)` of the
/// tree that contains them; [`None`] outside the `[0, nx) × [0, ny) × [0, nz)` tree grid.
pub open spec fn resolve_spec(g: [u32; 3], tree_id: u32, x: int, y: int, z: int) -> Option<(u32, u32, u32, u32)> {
    let nx = g[0] as int;
    let ny = g[1] as int;
    let nz = g[2] as int;
    let tx = tree_id as int % nx + x / tree_extent();
    let ty = (tree_id as int / nx) % ny + y / tree_extent();
    let tz = tree_id as int / (nx * ny) + z / tree_extent();
    if tx < 0 || tx >= nx || ty < 0 || ty >= ny || tz < 0 || tz >= nz {
        None
    } else {
        Some((
            (tx + ty * nx + tz * nx * ny) as u32,
            (x % tree_extent()) as u32,
            (y % tree_extent()) as u32,
            (z % tree_extent()) as u32,
        ))
    }
}

/// Grids whose tree identifiers fit in a key, with at least one tree along `x` and `y` (tree
/// identifiers are split by division by `nx` and `nx * ny`, which must fit in 32 bits).
pub open spec fn grid_addressable(g: [u32; 3]) -> bool {
    g[0] >= 1 && g[1] >= 1 && g[0] as int * g[1] as int <= u32::MAX && grid_trees(g) <= TREE_LIMIT
}

/// The four probe points just outside face `dir` of a cell with corner `(cx, cy, cz)` and
/// edge `size`: the centres of the face's quarter quads, one unit along the outward normal.
pub open spec fn face_points(cx: int, cy: int, cz: int, size: int, dir: Direction) -> Seq<(int, int, int)> {
    let q = size / 4;
    let t = 3 * size / 4;
    match dir {
        Direction::XMinus => seq![(cx - 1, cy + q, cz + q), (cx - 1, cy + t, cz + q), (cx - 1, cy + q, cz + t), (cx - 1, cy + t, cz + t)],
        Direction::XPlus => seq![(cx + size, cy + q, cz + q), (cx + size, cy + t, cz + q), (cx + size, cy + q, cz + t), (cx + size, cy + t, cz + t)],
        Direction::YMinus => seq![(cx + q, cy - 1, cz + q), (cx + t, cy - 1, cz + q), (cx + q, cy - 1, cz + t), (cx + t, cy - 1, cz + t)],
        Direction::YPlus => seq![(cx + q, cy + size, cz + q), (cx + t, cy + size, cz + q), (cx + q, cy + size, cz + t), (cx + t, cy + size, cz + t)],
        Direction::ZMinus => seq![(cx + q, cy + q, cz - 1), (cx + t, cy + q, cz - 1), (cx + q, cy + t, cz - 1), (cx + t, cy + t, cz - 1)],
        Direction::ZPlus => seq![(cx + q, cy + q, cz + size), (cx + t, cy + q, cz + size), (cx + q, cy + t, cz + size), (cx + t, cy + t, cz + size)],
    }
}

/// Edge length of a cell at `level` in logical units.
pub open spec fn cell_size(level: u8) -> int {
    (1u64 << ((32 - level) as u64)) as int
}

/// The probe points of face `dir` of a logical cell.
pub open spec fn cell_face_points(cell: LogicalCell, dir: Direction) -> Seq<(int, int, int)> {
    face_points(cell.x as int, cell.y as int, cell.z as int, cell_size(cell.level), dir)
}

/// The leaf found at a probe point given relative to tree `tree_id`.
pub open spec fn leaf_at_point(ks: Seq<u128>, g: [u32; 3], tree_id: u32, p: (int, int, int)) -> Option<u128> {
    match resolve_spec(g, tree_id, p.0, p.1, p.2) {
        Some((t, x, y, z)) => leaf_at(ks, t, x, y, z),
        None => None,
    }
}

/// The found values in order of first occurrence, without repeats and without misses.
pub open spec fn distinct_found(found: Seq<Option<u128>>) -> Seq<u128>
    decreases found.len(),
{
    if found.len() == 0 {
        Seq::empty()
    } else {
        let prev = distinct_found(found.drop_last());
        match found.last() {
            Some(k) => if prev.contains(k) { prev } else { prev.push(k) },
            None => prev,
        }
    }
}

/// The leaves touching face `dir` of the cell `raw`: the distinct leaves at the face's probe
/// points, in probe order.
pub open spec fn face_neighbours(ks: Seq<u128>, g: [u32; 3], raw: u128, dir: Direction) -> Seq<u128> {
    let cell = cell_of_key(raw);
    let pts = cell_face_points(cell, dir);
    distinct_found(Seq::new(4, |i: int| leaf_at_point(ks, g, cell.tree_id, pts[i])))
}

fn contains_key(v: &Vec<Key>, k: Key) -> (r: bool)
    ensures
        r == v@.map_values(|q: Key| q@).contains(k@),
{
    let mut i: usize = 0;
    while i < v.len()
        invariant
            i <= v@.len(),
            forall|j: int| 0 <= j < i ==> (#[trigger] v@[j])@ != k@,
        decreases v@.len() - i,
    {
        if v[i].packed() == k.packed() {
            assert(v@.map_values(|q: Key| q@)[i as int] == k@);
            return true;
        }
        i = i + 1;
    }
    proof {
        let vs = v@.map_values(|q: Key| q@);
        if vs.contains(k@) {
            let j = choose|j: int| 0 <= j < vs.len() && #[trigger] vs[j] == k@;
            assert(v@[j]@ == k@);
        }
    }
    false
}

impl Forest {
    /// Maps global logical coordinates to `(tree_id, local x, y, z)` when crossing tree bounds.
    ///
    /// Each tree owns a `[0, 2^32)` logical cube; coordinates outside wrap to neighbour trees
    /// using Euclidean division by `2^32`. Returns [`None`] if the point leaves the global
    /// `[0, nx) × [0, ny) × [0, nz)` tree grid.
    pub fn resolve_coord(&self, tree_id: u32, x: i64, y: i64, z: i64) -> (r: Option<(u32, u32, u32, u32)>)
        requires
            self.grid()[0] >= 1,
            self.grid()[1] >= 1,
            self.grid()[0] as int * self.grid()[1] as int <= u32::MAX,
            grid_trees(self.grid()) <= i64::MAX,
        ensures
            r == resolve_spec(self.grid(), tree_id, x as int, y as int, z as int),
    {
        let g = self.base_res();
        let nx = g[0];
        let ny = g[1];
        let nz = g[2];
        let mut tx = (tree_id % nx) as i64;
        let mut ty = ((tree_id / nx) % ny) as i64;
        assert(nx as int * ny as int >= 1) by (nonlinear_arith)
            requires nx >= 1, ny >= 1;
        let mut tz = (tree_id / (nx * ny)) as i64;

        let max_val: i64 = 0x1_0000_0000;

        tx = tx + x.checked_div_euclid(max_val).unwrap();
        ty = ty + y.checked_div_euclid(max_val).unwrap();
        tz = tz + z.checked_div_euclid(max_val).unwrap();
        let new_x = x.checked_rem_euclid(max_val).unwrap();
        let new_y = y.checked_rem_euclid(max_val).unwrap();
        let new_z = z.checked_rem_euclid(max_val).unwrap();

        if tx < 0 || tx >= nx as i64 || ty < 0 || ty >= ny as i64 || tz < 0 || tz >= nz as i64 {
            return None;
        }

        proof {
            let (a, b, c) = (nx as int, ny as int, nz as int);
            assert(tz as int * a <= c * a) by (nonlinear_arith)
                requires 0 <= tz < c, a >= 0;
            assert(tz as int * a * b <= (c - 1) * a * b) by (nonlinear_arith)
                requires 0 <= tz < c, a >= 0, b >= 0;
            assert(ty as int * a <= (b - 1) * a) by (nonlinear_arith)
                requires 0 <= ty < b, a >= 0;
            assert(c * a <= a * b * c) by (nonlinear_arith)
                requires b >= 1, a >= 0, c >= 0;
            assert((c - 1) * a * b + (b - 1) * a + a == a * b * c) by (nonlinear_arith);
        }
        let new_tree_id = (tx + ty * (nx as i64) + tz * (nx as i64) * (ny as i64)) as u32;
        Some((new_tree_id, new_x as u32, new_y as u32, new_z as u32))
    }

    /// Returns distinct cells that touch `key`'s face in `dir`, using four point queries.
    ///
    /// Under a 2:1 size rule, a face is covered by either one same-or-larger neighbour or four
    /// half-size cells. Samples are placed at the face quad centres, offset one unit along the
    /// outward normal, then resolved with [`Self::find_cell_containing`].
    pub fn neighbours_covering_face(&self, key: Key, dir: Direction) -> (r: Vec<Key>)
        requires
            grid_addressable(self.grid()),
        ensures
            r@.map_values(|k: Key| k@) == face_neighbours(self.key_seq(), self.grid(), key@, dir),
    {
        let logical = key.to_logical();
        proof {
            crate::key::lemma_key_value(key@);
        }
        let size = logical.size() as i64;
        let quarter = size / 4;
        let three_quarter = 3 * size / 4;

        let cx = logical.x as i64;
        let cy = logical.y as i64;
        let cz = logical.z as i64;

        let mut points: Vec<(i64, i64, i64)> = Vec::with_capacity(4);

        match dir {
            Direction::XMinus => {
                let px = cx - 1;
                points.push((px, cy + quarter, cz + quarter));
                points.push((px, cy + three_quarter, cz + quarter));
                points.push((px, cy + quarter, cz + three_quarter));
                points.push((px, cy + three_quarter, cz + three_quarter));
            },
            Direction::XPlus => {
                let px = cx + size;
                points.push((px, cy + quarter, cz + quarter));
                points.push((px, cy + three_quarter, cz + quarter));
                points.push((px, cy + quarter, cz + three_quarter));
                points.push((px, cy + three_quarter, cz + three_quarter));
            },
            Direction::YMinus => {
                let py = cy - 1;
                points.push((cx + quarter, py, cz + quarter));
                points.push((cx + three_quarter, py, cz + quarter));
                points.push((cx + quarter, py, cz + three_quarter));
                points.push((cx + three_quarter, py, cz + three_quarter));
            },
            Direction::YPlus => {
                let py = cy + size;
                points.push((cx + quarter, py, cz + quarter));
                points.push((cx + three_quarter, py, cz + quarter));
                points.push((cx + quarter, py, cz + three_quarter));
                points.push((cx + three_quarter, py, cz + three_quarter));
            },
            Direction::ZMinus => {
                let pz = cz - 1;
                points.push((cx + quarter, cy + quarter, pz));
                points.push((cx + three_quarter, cy + quarter, pz));
                points.push((cx + quarter, cy + three_quarter, pz));
                points.push((cx + three_quarter, cy + three_quarter, pz));
            },
            Direction::ZPlus => {
                let pz = cz + size;
                points.push((cx + quarter, cy + quarter, pz));
                points.push((cx + three_quarter, cy + quarter, pz));
                points.push((cx + quarter, cy + three_quarter, pz));
                points.push((cx + three_quarter, cy + three_quarter, pz));
            },
        }

        let ghost ks = self.key_seq();
        let ghost g = self.grid();
        let ghost pts = cell_face_points(logical, dir);
        let ghost found = Seq::new(4, |i: int| leaf_at_point(ks, g, logical.tree_id, pts[i]));
        assert(points@.len() == 4);
        assert(forall|i: int| 0 <= i < 4 ==> (#[trigger] points@[i]).0 as int == pts[i].0 && points@[i].1 as int == pts[i].1 && points@[i].2 as int == pts[i].2);
        proof {
            assert(nx_ny_fits(g)) by {
                lemma_grid_fits(g);
            }
        }

        let mut neighbours: Vec<Key> = Vec::new();
        let mut i: usize = 0;
        assert(found.take(0) =~= Seq::<Option<u128>>::empty());
        while i < 4
            invariant
                i <= 4,
                points@.len() == 4,
                ks == self.key_seq(),
                g == self.grid(),
                grid_addressable(g),
                nx_ny_fits(g),
                found == Seq::new(4, |i: int| leaf_at_point(ks, g, logical.tree_id, pts[i])),
                forall|i: int| 0 <= i < 4 ==> (#[trigger] points@[i]).0 as int == pts[i].0 && points@[i].1 as int == pts[i].1 && points@[i].2 as int == pts[i].2,
                neighbours@.map_values(|k: Key| k@) == distinct_found(found.take(i as int)),
            decreases 4 - i,
        {
            let (px, py, pz) = points[i];
            let ghost before = neighbours@.map_values(|k: Key| k@);
            let ghost fi = found[i as int];
            assert(found.take(i + 1).drop_last() =~= found.take(i as int));
            assert(found.take(i + 1).last() == fi);
            match self.resolve_coord(logical.tree_id, px, py, pz) {
                Some((t_id, x, y, z)) => {
                    proof {
                        lemma_resolved_tree_in_grid(g, logical.tree_id, px as int, py as int, pz as int);
                    }
                    match self.find_cell_containing(t_id, x, y, z) {
                        Some(neighbour_key) => {
                            if !contains_key(&neighbours, neighbour_key) {
                                neighbours.push(neighbour_key);
                                assert(neighbours@.map_values(|k: Key| k@) =~= before.push(neighbour_key@));
                            }
                        },
                        None => {},
                    }
                },
                None => {},
            }
            i = i + 1;
        }
        assert(found.take(4) =~= found);
        neighbours
    }
}

/// Every value picked out of `found` is one of the `Some` entries.
proof fn lemma_distinct_found_from(found: Seq<Option<u128>>, ks: Seq<u128>)
    requires
        forall|i: int| 0 <= i < found.len() ==> (#[trigger] found[i] matches Some(k) ==> ks.contains(k)),
    ensures
        forall|j: int| 0 <= j < distinct_found(found).len() ==> ks.contains(#[trigger] distinct_found(found)[j]),
    decreases found.len(),
{
    if found.len() > 0 {
        let prev = distinct_found(found.drop_last());
        assert forall|i: int| 0 <= i < found.drop_last().len() implies (#[trigger] found.drop_last()[i] matches Some(k) ==> ks.contains(k)) by {
            assert(found.drop_last()[i] == found[i]);
        }
        lemma_distinct_found_from(found.drop_last(), ks);
        assert(found.last() == found[found.len() - 1]);
    }
}

/// Every face neighbour is a leaf of the forest.
pub proof fn lemma_face_neighbours_are_leaves(ks: Seq<u128>, g: [u32; 3], raw: u128, dir: Direction)
    ensures
        forall|j: int| 0 <= j < face_neighbours(ks, g, raw, dir).len() ==> ks.contains(#[trigger] face_neighbours(ks, g, raw, dir)[j]),
{
    let cell = cell_of_key(raw);
    let pts = cell_face_points(cell, dir);
    let found = Seq::new(4, |i: int| leaf_at_point(ks, g, cell.tree_id, pts[i]));
    assert forall|i: int| 0 <= i < found.len() implies (#[trigger] found[i] matches Some(k) ==> ks.contains(k)) by {
        match resolve_spec(g, cell.tree_id, pts[i].0, pts[i].1, pts[i].2) {
            Some((t, x, y, z)) => {
                if leaf_at(ks, t, x, y, z) is Some {
                    let c = crate::morton::morton_of(x, y, z);
                    let w = choose|w: int| 0 <= w < ks.len() && #[trigger] crate::query::covers(ks[w], t, c);
                    assert(ks[w] == ks[w]);
                }
            },
            None => {},
        }
    }
    lemma_distinct_found_from(found, ks);
}

/// `nx * ny` fits in 32 bits and the grid fits a signed 64-bit product.
pub open spec fn nx_ny_fits(g: [u32; 3]) -> bool {
    g[0] as int * g[1] as int <= u32::MAX && grid_trees(g) <= i64::MAX
}

pub proof fn lemma_grid_fits(g: [u32; 3])
    requires
        grid_addressable(g),
    ensures
        nx_ny_fits(g),
{
}

/// A resolved probe point lands in a tree of the grid.
pub proof fn lemma_resolved_tree_in_grid(g: [u32; 3], tree_id: u32, x: int, y: int, z: int)
    requires
        grid_addressable(g),
        resolve_spec(g, tree_id, x, y, z) is Some,
    ensures
        (resolve_spec(g, tree_id, x, y, z)->0).0 < TREE_LIMIT,
{
    let nx = g[0] as int;
    let ny = g[1] as int;
    let nz = g[2] as int;
    let tx = tree_id as int % nx + x / tree_extent();
    let ty = (tree_id as int / nx) % ny + y / tree_extent();
    let tz = tree_id as int / (nx * ny) + z / tree_extent();
    assert(tx + ty * nx + tz * nx * ny < nx * ny * nz) by (nonlinear_arith)
        requires 0 <= tx < nx, 0 <= ty < ny, 0 <= tz < nz;
    assert(tx + ty * nx + tz * nx * ny >= 0) by (nonlinear_arith)
        requires 0 <= tx < nx, 0 <= ty < ny, 0 <= tz < nz;
}

/// Moving a point by whole trees moves it to the tree at the shifted grid position, with the
/// same local coordinates; outside the grid there is no tree.
pub proof fn lemma_resolve_moves_by_trees(g: [u32; 3], tx: u32, ty: u32, tz: u32, dx: int, dy: int, dz: int, x: int, y: int, z: int)
    requires
        grid_addressable(g),
        tx < g[0],
        ty < g[1],
        tz < g[2],
        0 <= x < tree_extent(),
        0 <= y < tree_extent(),
        0 <= z < tree_extent(),
    ensures
        resolve_spec(g, tree_index(g, tx, ty, tz) as u32, x + dx * tree_extent(), y + dy * tree_extent(), z + dz * tree_extent())
            == (if 0 <= tx + dx < g[0] && 0 <= ty + dy < g[1] && 0 <= tz + dz < g[2] {
                Some((tree_index(g, (tx + dx) as u32, (ty + dy) as u32, (tz + dz) as u32) as u32, x as u32, y as u32, z as u32))
            } else {
                None
            }),
{
    let e = tree_extent();
    lemma_tree_index_decode(g, tx, ty, tz);
    let id = tree_index(g, tx, ty, tz);
    assert(grid_trees(g) <= TREE_LIMIT);
    assert((id as u32) as int == id);
    vstd::arithmetic::div_mod::lemma_fundamental_div_mod_converse(x + dx * e, e, dx, x);
    vstd::arithmetic::div_mod::lemma_fundamental_div_mod_converse(y + dy * e, e, dy, y);
    vstd::arithmetic::div_mod::lemma_fundamental_div_mod_converse(z + dz * e, e, dz, z);
    if 0 <= tx + dx < g[0] && 0 <= ty + dy < g[1] && 0 <= tz + dz < g[2] {
        lemma_tree_index_decode(g, (tx + dx) as u32, (ty + dy) as u32, (tz + dz) as u32);
    }
}

/// A point with local coordinates inside its tree stays in that tree, at the same coordinates.
pub proof fn lemma_resolve_inside_tree(g: [u32; 3], t: u32, x: int, y: int, z: int)
    requires
        grid_addressable(g),
        t < grid_trees(g),
        0 <= x < tree_extent(),
        0 <= y < tree_extent(),
        0 <= z < tree_extent(),
    ensures
        resolve_spec(g, t, x, y, z) == Some((t, x as u32, y as u32, z as u32)),
{
    let (a, b, c) = (g[0] as int, g[1] as int, g[2] as int);
    let ti = t as int;
    vstd::arithmetic::div_mod::lemma_fundamental_div_mod(ti, a);
    vstd::arithmetic::div_mod::lemma_fundamental_div_mod(ti / a, b);
    vstd::arithmetic::div_mod::lemma_div_denominator(ti, a, b);
    vstd::arithmetic::div_mod::lemma_mod_bound(ti, a);
    vstd::arithmetic::div_mod::lemma_mod_bound(ti / a, b);
    let tx = ti % a;
    let ty = (ti / a) % b;
    let tz = ti / (a * b);
    assert(ti == tx + ty * a + tz * a * b) by (nonlinear_arith)
        requires ti == a * (ti / a) + tx, ti / a == b * ((ti / a) / b) + ty, (ti / a) / b == tz;
    assert(0 <= tz < c) by (nonlinear_arith)
        requires ti == tx + ty * a + tz * a * b, 0 <= tx < a, 0 <= ty < b, 0 <= ti < a * b * c, a >= 1, b >= 1;
    lemma_resolve_moves_by_trees(g, tx as u32, ty as u32, tz as u32, 0, 0, 0, x, y, z);
}

/// The point `p` lies in the box with corner `c` and edge `s`.
pub open spec fn in_box(c: (int, int, int), s: int, p: (int, int, int)) -> bool {
    &&& c.0 <= p.0 < c.0 + s
    &&& c.1 <= p.1 < c.1 + s
    &&& c.2 <= p.2 < c.2 + s
}

/// Unit vector along the outward normal of face `dir`.
pub open spec fn outward_normal(dir: Direction) -> (int, int, int) {
    let sg: int = if crate::enums::direction_is_plus(dir) { 1 } else { -1 };
    match crate::enums::direction_axis(dir) {
        crate::enums::Axis::X => (sg, 0, 0),
        crate::enums::Axis::Y => (0, sg, 0),
        crate::enums::Axis::Z => (0, 0, sg),
    }
}

/// Every probe point of face `dir` lies just outside the cell across that face: it is not in
/// the cell's box, and one unit back along the outward normal it is.
pub proof fn lemma_face_points_just_outside(cx: int, cy: int, cz: int, s: int, dir: Direction)
    requires
        s >= 1,
    ensures
        face_points(cx, cy, cz, s, dir).len() == 4,
        forall|i: int| 0 <= i < 4 ==> {
            let p = #[trigger] face_points(cx, cy, cz, s, dir)[i];
            let n = outward_normal(dir);
            &&& !in_box((cx, cy, cz), s, p)
            &&& in_box((cx, cy, cz), s, (p.0 - n.0, p.1 - n.1, p.2 - n.2))
        },
{
    let q = s / 4;
    let t = 3 * s / 4;
    assert(0 <= q < s && 0 <= t < s);
}

/// Each value picked out of `found` is present in it.
proof fn lemma_distinct_found_witness(found: Seq<Option<u128>>)
    ensures
        forall|j: int| 0 <= j < distinct_found(found).len() ==> exists|i: int| 0 <= i < found.len() && found[i] == Some(#[trigger] distinct_found(found)[j]),
    decreases found.len(),
{
    if found.len() > 0 {
        let prev = distinct_found(found.drop_last());
        lemma_distinct_found_witness(found.drop_last());
        assert forall|j: int| 0 <= j < distinct_found(found).len() implies exists|i: int| 0 <= i < found.len() && found[i] == Some(#[trigger] distinct_found(found)[j]) by {
            if j < prev.len() {
                let i = choose|i: int| 0 <= i < found.drop_last().len() && found.drop_last()[i] == Some(prev[j]);
                assert(found[i] == found.drop_last()[i]);
            } else {
                assert(found[found.len() - 1] == found.last());
            }
        }
    }
}

/// The leaf `k` is found at a probe point of face `dir` of the cell `raw` that lies just outside
/// that face.
pub open spec fn found_across_face(ks: Seq<u128>, g: [u32; 3], raw: u128, dir: Direction, k: u128) -> bool {
    let cell = cell_of_key(raw);
    let c = (cell.x as int, cell.y as int, cell.z as int);
    let s = cell_size(cell.level);
    let n = outward_normal(dir);
    exists|i: int| 0 <= i < 4 && {
        let p = #[trigger] cell_face_points(cell, dir)[i];
        &&& leaf_at_point(ks, g, cell.tree_id, p) == Some(k)
        &&& !in_box(c, s, p)
        &&& in_box(c, s, (p.0 - n.0, p.1 - n.1, p.2 - n.2))
    }
}

/// Every leaf reported across face `dir` of a cell touches that face: it holds a point that is
/// outside the cell and one unit away from the face along its outward normal.
pub proof fn lemma_face_neighbours_touch_face(ks: Seq<u128>, g: [u32; 3], raw: u128, dir: Direction)
    requires
        key_is_cell(raw),
    ensures
        forall|j: int| 0 <= j < face_neighbours(ks, g, raw, dir).len() ==> found_across_face(ks, g, raw, dir, #[trigger] face_neighbours(ks, g, raw, dir)[j]),
{
    let cell = cell_of_key(raw);
    let pts = cell_face_points(cell, dir);
    let found = Seq::new(4, |i: int| leaf_at_point(ks, g, cell.tree_id, pts[i]));
    lemma_edge_range(key_level(raw));
    lemma_face_points_just_outside(cell.x as int, cell.y as int, cell.z as int, cell_size(cell.level), dir);
    lemma_distinct_found_witness(found);
    assert forall|j: int| 0 <= j < face_neighbours(ks, g, raw, dir).len() implies found_across_face(ks, g, raw, dir, #[trigger] face_neighbours(ks, g, raw, dir)[j]) by {
        let k = face_neighbours(ks, g, raw, dir)[j];
        let i = choose|i: int| 0 <= i < found.len() && found[i] == Some(distinct_found(found)[j]);
        assert(pts[i] == face_points(cell.x as int, cell.y as int, cell.z as int, cell_size(cell.level), dir)[i]);
    }
}

/// On the two axes along face `dir` (the first then the second of the others, in x, y, z
/// order), `p` lies in the lower half of the cell exactly when `lo_u`, `lo_v` say so.
pub open spec fn quarter_of(cx: int, cy: int, cz: int, s: int, dir: Direction, p: (int, int, int), lo_u: bool, lo_v: bool) -> bool {
    let h = s / 2;
    let in_half = |v: int, c: int, lo: bool| if lo { c <= v < c + h } else { c + h <= v < c + s };
    match crate::enums::direction_axis(dir) {
        crate::enums::Axis::X => in_half(p.1, cy, lo_u) && in_half(p.2, cz, lo_v),
        crate::enums::Axis::Y => in_half(p.0, cx, lo_u) && in_half(p.2, cz, lo_v),
        crate::enums::Axis::Z => in_half(p.0, cx, lo_u) && in_half(p.1, cy, lo_v),
    }
}

/// Some probe point of face `dir` lies in the quarter of the face picked by `lo_u`, `lo_v`.
pub open spec fn quarter_sampled(cx: int, cy: int, cz: int, s: int, dir: Direction, lo_u: bool, lo_v: bool) -> bool {
    exists|i: int| 0 <= i < 4 && quarter_of(cx, cy, cz, s, dir, face_points(cx, cy, cz, s, dir)[i], lo_u, lo_v)
}

/// The probe points sample the four quarters of the face: on the two axes along the face, each
/// point lies in the lower or upper half of the cell, and the four points take all four
/// combinations.
pub proof fn lemma_face_points_quarters(cx: int, cy: int, cz: int, s: int, dir: Direction)
    requires
        s >= 2,
        s % 2 == 0,
    ensures
        forall|lo_u: bool, lo_v: bool| #[trigger] quarter_sampled(cx, cy, cz, s, dir, lo_u, lo_v),
{
    assert forall|lo_u: bool, lo_v: bool| #[trigger] quarter_sampled(cx, cy, cz, s, dir, lo_u, lo_v) by {
        let i: int = (if lo_u { 0int } else { 1int }) + (if lo_v { 0int } else { 2int });
        assert(quarter_of(cx, cy, cz, s, dir, face_points(cx, cy, cz, s, dir)[i], lo_u, lo_v));
    }
}

impl Forest {
    /// Returns global forest indices of cells face-adjacent to leaf `cell_idx` in `dir`.
    ///
    /// Uses [`Self::neighbours_covering_face`] and maps each neighbour [`Key`] to its index in
    /// the sorted key array.
    pub fn face_neighbour_global_ids(&self, cell_idx: usize, dir: Direction) -> (r: Vec<usize>)
        requires
            cell_idx < self.key_seq().len(),
            grid_addressable(self.grid()),
        ensures
            r@.len() == face_neighbours(self.key_seq(), self.grid(), self.key_seq()[cell_idx as int], dir).len(),
            forall|j: int| 0 <= j < r@.len() ==> #[trigger] r@[j] < self.key_seq().len()
                && self.key_seq()[r@[j] as int] == face_neighbours(self.key_seq(), self.grid(), self.key_seq()[cell_idx as int], dir)[j],
    {
        let keys = self.keys();
        let ghost ks = self.key_seq();
        let key = keys[cell_idx];
        let nbr_keys = self.neighbours_covering_face(key, dir);
        let ghost nb = face_neighbours(ks, self.grid(), key@, dir);
        proof {
            lemma_face_neighbours_are_leaves(ks, self.grid(), key@, dir);
            lemma_leaves_strictly_sorted(ks);
        }
        let mut out: Vec<usize> = Vec::new();
        let mut j: usize = 0;
        while j < nbr_keys.len()
            invariant
                keys@.map_values(|k: Key| k@) == ks,
                strictly_sorted(ks),
                nbr_keys@.map_values(|k: Key| k@) == nb,
                forall|q: int| 0 <= q < nb.len() ==> ks.contains(#[trigger] nb[q]),
                j <= nbr_keys@.len(),
                out@.len() == j,
                forall|q: int| 0 <= q < j ==> #[trigger] out@[q] < ks.len() && ks[out@[q] as int] == nb[q],
            decreases nbr_keys@.len() - j,
        {
            let nk = nbr_keys[j];
            assert(nk@ == nb[j as int]);
            match search_keys(keys, nk.packed()) {
                Ok(idx) => {
                    out.push(idx);
                },
                Err(idx) => {
                    proof {
                        let w = choose|w: int| 0 <= w < ks.len() && ks[w] == nb[j as int];
                        assert(keys@[w]@ == nk@);
                        assert(false);
                    }
                },
            }
            j = j + 1;
        }
        out
    }
}

} // verus!
