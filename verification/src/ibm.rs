//! Integer decisions of the immersed-boundary pipeline: locating a leaf from tree and local
//! coordinates, which leaves to refine around the boundary, which faces need a ray cast and
//! which solid leaves border the fluid.

use vstd::prelude::*;
use crate::forest::{Forest, grid_trees};
use crate::key::{Key, key_level, TREE_LIMIT};
use crate::flood::{CellType, dir_at, adjacent_in_dir};
use crate::enums::Direction;
use crate::neighbour::{face_neighbours, grid_addressable};
use crate::query::{leaf_at, covers, strictly_sorted, lemma_leaves_strictly_sorted, search_keys};
use crate::refine::refine_seq;

verus! {

/// Index of the tree at grid position `(tx, ty, tz)`.
pub open spec fn tree_index(g: [u32; 3], tx: u32, ty: u32, tz: u32) -> int {
    tx as int + ty as int * g[0] as int + tz as int * g[0] as int * g[1] as int
}

/// Whether leaf `i` is a solid leaf with a fluid face neighbour (a computational ghost cell).
#[verifier::opaque]
pub open spec fn is_ghost_cell(ks: Seq<u128>, g: [u32; 3], fluid: Seq<bool>, i: int) -> bool {
    !fluid[i] && exists|k: int, j: int| 0 <= k < 6 && 0 <= j < ks.len() && #[trigger] adjacent_in_dir(ks, g, i, j, k) && fluid[j]
}

/// Refinement flags of the boundary band: intersect leaves below `target_level`.
pub open spec fn intersect_flags(ks: Seq<u128>, types: Seq<CellType>, target_level: u8) -> Seq<bool> {
    Seq::new(ks.len(), |i: int| types[i] == CellType::Intersect && key_level(ks[i]) < target_level)
}

fn direction_at(k: usize) -> (r: crate::enums::Direction)
    requires
        k < 6,
    ensures
        r == dir_at(k as int),
{
    if k == 0 {
        crate::enums::Direction::XMinus
    } else if k == 1 {
        crate::enums::Direction::XPlus
    } else if k == 2 {
        crate::enums::Direction::YMinus
    } else if k == 3 {
        crate::enums::Direction::YPlus
    } else if k == 4 {
        crate::enums::Direction::ZMinus
    } else {
        crate::enums::Direction::ZPlus
    }
}

impl Forest {
    /// Index of the leaf that contains the logical point `local` of the tree at grid position
    /// `tree`; [`None`] when the tree is outside the grid or no leaf covers the point.
    pub fn global_id_from_logical(&self, tree: [u32; 3], local: [u32; 3]) -> (r: Option<usize>)
        requires
            grid_trees(self.grid()) <= TREE_LIMIT,
        ensures
            match r {
                Some(i) => i < self.key_seq().len() && tree[0] < self.grid()[0] && tree[1] < self.grid()[1]
                    && tree[2] < self.grid()[2] && leaf_at(self.key_seq(), tree_index(self.grid(), tree[0], tree[1], tree[2]) as u32,
                    local[0], local[1], local[2]) == Some(self.key_seq()[i as int]),
                None => !(tree[0] < self.grid()[0] && tree[1] < self.grid()[1] && tree[2] < self.grid()[2])
                    || leaf_at(self.key_seq(), tree_index(self.grid(), tree[0], tree[1], tree[2]) as u32,
                    local[0], local[1], local[2]) is None,
            },
    {
        let g = self.base_res();
        if tree[0] >= g[0] || tree[1] >= g[1] || tree[2] >= g[2] {
            return None;
        }
        proof {
            let (a, b, c) = (g[0] as int, g[1] as int, g[2] as int);
            let (x, y, z) = (tree[0] as int, tree[1] as int, tree[2] as int);
            assert(x + y * a + z * a * b < a * b * c) by (nonlinear_arith)
                requires 0 <= x < a, 0 <= y < b, 0 <= z < c;
            assert(y * a <= y * a + z * a * b && z * a <= z * a * b) by (nonlinear_arith)
                requires 0 <= x < a, 0 <= y < b, 0 <= z < c;
            assert(z * a * b >= 0) by (nonlinear_arith)
                requires 0 <= z, 0 <= a, 0 <= b;
        }
        let tree_id = tree[0] + tree[1] * g[0] + tree[2] * g[0] * g[1];
        let keys = self.keys();
        proof {
            lemma_leaves_strictly_sorted(self.key_seq());
        }
        match self.find_cell_containing(tree_id, local[0], local[1], local[2]) {
            Some(target_key) => {
                match search_keys(keys, target_key.packed()) {
                    Ok(global_id) => Some(global_id),
                    Err(_) => {
                        proof {
                            let ks = self.key_seq();
                            let w = choose|w: int| 0 <= w < ks.len() && ks[w] == target_key@;
                            assert(keys@[w]@ == target_key@);
                        }
                        None
                    },
                }
            },
            None => None,
        }
    }

    /// Refines the leaves of the boundary band: every intersect leaf below `target_level`.
    /// Returns whether any leaf was flagged; the forest is unchanged when none was.
    pub fn refine_intersecting(&mut self, cell_types: &[CellType], target_level: u8) -> (r: bool)
        requires
            cell_types@.len() == old(self).key_seq().len(),
        ensures
            r == exists|i: int| 0 <= i < old(self).key_seq().len() && #[trigger] intersect_flags(old(self).key_seq(), cell_types@, target_level)[i],
            r ==> final(self).key_seq() == refine_seq(old(self).key_seq(), intersect_flags(old(self).key_seq(), cell_types@, target_level)),
            !r ==> final(self).key_seq() == old(self).key_seq(),
            final(self).grid() == old(self).grid(),
    {
        let keys = self.keys();
        let ghost ks = self.key_seq();
        let ghost want = intersect_flags(ks, cell_types@, target_level);
        let n = keys.len();
        let mut flags: Vec<bool> = Vec::with_capacity(n);
        let mut any = false;
        let mut i: usize = 0;
        while i < n
            invariant
                n == ks.len() == cell_types@.len(),
                keys@.map_values(|k: Key| k@) == ks,
                want == intersect_flags(ks, cell_types@, target_level),
                i <= n,
                flags@ == want.take(i as int),
                any == exists|j: int| 0 <= j < i && #[trigger] want[j],
            decreases n - i,
        {
            let f = cell_types[i] == CellType::Intersect && keys[i].level() < target_level;
            assert(f == want[i as int]);
            flags.push(f);
            if f {
                any = true;
            }
            proof {
                assert(flags@ =~= want.take(i + 1));
                if !any {
                    assert forall|j: int| 0 <= j < i + 1 implies !#[trigger] want[j] by {}
                }
            }
            i = i + 1;
        }
        assert(flags@ =~= want);
        if !any {
            return false;
        }
        self.refine_by_flags(&flags);
        true
    }

    /// Whether leaf `global_id` is a solid leaf that shares a face with a fluid leaf.
    pub fn is_ghost_cell(&self, gc_is_fluid: &[bool], global_id: usize) -> (r: bool)
        requires
            grid_addressable(self.grid()),
            gc_is_fluid@.len() == self.key_seq().len(),
            global_id < self.key_seq().len(),
        ensures
            r == is_ghost_cell(self.key_seq(), self.grid(), gc_is_fluid@, global_id as int),
    {
        let ghost ks = self.key_seq();
        let ghost g = self.grid();
        let ghost gi = global_id as int;
        proof {
            reveal(is_ghost_cell);
            use_type_invariant(self);
            lemma_leaves_strictly_sorted(ks);
        }
        if gc_is_fluid[global_id] {
            proof {
                reveal(is_ghost_cell);
            }
            return false;
        }
        let mut di: usize = 0;
        while di < 6
            invariant
                di <= 6,
                ks == self.key_seq(),
                g == self.grid(),
                grid_addressable(g),
                strictly_sorted(ks),
                gc_is_fluid@.len() == ks.len(),
                0 <= gi < ks.len(),
                gi == global_id,
                !gc_is_fluid@[gi],
                forall|k: int, j: int| 0 <= k < di && 0 <= j < ks.len() && #[trigger] adjacent_in_dir(ks, g, gi, j, k) ==> !gc_is_fluid@[j],
            decreases 6 - di,
        {
            let dir = direction_at(di);
            let nbrs = self.face_neighbour_global_ids(global_id, dir);
            let ghost fnb = face_neighbours(ks, g, ks[gi], dir_at(di as int));
            let mut m: usize = 0;
            while m < nbrs.len()
                invariant
                    ks == self.key_seq(),
                    g == self.grid(),
                    0 <= gi < ks.len(),
                    gi == global_id,
                    !gc_is_fluid@[gi],
                    di < 6,
                    fnb == face_neighbours(ks, g, ks[gi], dir_at(di as int)),
                    nbrs@.len() == fnb.len(),
                    forall|q: int| 0 <= q < nbrs@.len() ==> #[trigger] nbrs@[q] < ks.len() && ks[nbrs@[q] as int] == fnb[q],
                    gc_is_fluid@.len() == ks.len(),
                    m <= nbrs@.len(),
                    forall|q: int| 0 <= q < m ==> !gc_is_fluid@[#[trigger] nbrs@[q] as int],
                decreases nbrs@.len() - m,
            {
                let nbr_id = nbrs[m];
                if gc_is_fluid[nbr_id] {
                    proof {
                        assert(adjacent_in_dir(ks, g, gi, nbr_id as int, di as int)) by {
                            assert(fnb[m as int] == ks[nbr_id as int]);
                        }
                        reveal(is_ghost_cell);
                    }
                    return true;
                }
                m = m + 1;
            }
            proof {
                assert forall|j: int| 0 <= j < ks.len() && #[trigger] adjacent_in_dir(ks, g, gi, j, di as int) implies !gc_is_fluid@[j] by {
                    let q = choose|q: int| 0 <= q < fnb.len() && #[trigger] fnb[q] == ks[j];
                    let w = nbrs@[q] as int;
                    assert(ks[w] == ks[j]);
                    if w != j {
                        if w < j {
                            assert(ks[w] < ks[j]);
                        } else {
                            assert(ks[j] < ks[w]);
                        }
                    }
                    assert(!gc_is_fluid@[nbrs@[q] as int]);
                }
            }
            di = di + 1;
        }
        proof {
            reveal(is_ghost_cell);
        }
        false
    }
}

/// Whether an interior face needs a ray cast: one of its two cells intersects the boundary.
pub fn face_needs_raycast(cell_types: &[CellType], owner: usize, neighbour: usize) -> (r: bool)
    requires
        owner < cell_types@.len(),
        neighbour < cell_types@.len(),
    ensures
        r == (cell_types@[owner as int] == CellType::Intersect || cell_types@[neighbour as int] == CellType::Intersect),
{
    cell_types[owner] == CellType::Intersect || cell_types[neighbour] == CellType::Intersect
}

/// Returns `true` if any intersect leaf sits below `target_level` (an under-refined band).
pub fn has_under_refined_intersect_cells(forest: &Forest, cell_types: &[CellType], target_level: u8) -> (r: bool)
    ensures
        r == exists|i: int| 0 <= i < forest.key_seq().len() && 0 <= i < cell_types@.len()
            && #[trigger] cell_types@[i] == CellType::Intersect && key_level(forest.key_seq()[i]) < target_level,
{
    let keys = forest.keys();
    let ghost ks = forest.key_seq();
    let n = if keys.len() < cell_types.len() { keys.len() } else { cell_types.len() };
    let mut i: usize = 0;
    while i < n
        invariant
            n <= ks.len(),
            n <= cell_types@.len(),
            n == ks.len() || n == cell_types@.len(),
            ks == forest.key_seq(),
            keys@.map_values(|k: Key| k@) == ks,
            i <= n,
            forall|j: int| 0 <= j < i ==> !(#[trigger] cell_types@[j] == CellType::Intersect && key_level(ks[j]) < target_level),
        decreases n - i,
    {
        if cell_types[i] == CellType::Intersect && keys[i].level() < target_level {
            return true;
        }
        i = i + 1;
    }
    false
}

/// Number of odd ray-crossing counts: the rays that see the point inside.
pub open spec fn odd_count(crossings: Seq<u32>) -> nat
    decreases crossings.len(),
{
    if crossings.len() == 0 {
        0
    } else {
        odd_count(crossings.drop_last()) + (if crossings.last() % 2 == 1 { 1nat } else { 0nat })
    }
}

/// Majority vote of the parity test: a point is inside when at least seven of its rays cross
/// the surface an odd number of times.
pub fn inside_by_parity_vote(crossings: &[u32]) -> (r: bool)
    ensures
        r == (odd_count(crossings@) >= 7),
{
    let mut count: usize = 0;
    let mut i: usize = 0;
    while i < crossings.len()
        invariant
            i <= crossings@.len(),
            count == odd_count(crossings@.take(i as int)),
            count <= i,
        decreases crossings@.len() - i,
    {
        proof {
            assert(crossings@.take(i + 1).drop_last() =~= crossings@.take(i as int));
        }
        if crossings[i] % 2 != 0 {
            count = count + 1;
        }
        i = i + 1;
    }
    proof {
        assert(crossings@.take(crossings@.len() as int) =~= crossings@);
    }
    count >= 7
}

/// Fluid flag of a leaf for the ghost-cell method: fluid leaves, and intersect leaves whose
/// centre lies on the same side of the surface as the fluid seed.
pub open spec fn gc_fluid(ct: CellType, inside: bool, seed_inside: bool) -> bool {
    ct == CellType::Fluid || (ct == CellType::Intersect && inside == seed_inside)
}

/// Fluid flags of all leaves: `intersect_inside[i]` is the inside test of leaf `i`'s centre
/// (read for intersect leaves only) and `seed_inside` that of the fluid seed point.
pub fn ghost_fluid_mask(cell_types: &[CellType], intersect_inside: &[bool], seed_inside: bool) -> (r: Vec<bool>)
    requires
        intersect_inside@.len() == cell_types@.len(),
    ensures
        r@.len() == cell_types@.len(),
        forall|i: int| 0 <= i < r@.len() ==> #[trigger] r@[i] == gc_fluid(cell_types@[i], intersect_inside@[i], seed_inside),
{
    let mut out: Vec<bool> = Vec::with_capacity(cell_types.len());
    let mut i: usize = 0;
    while i < cell_types.len()
        invariant
            intersect_inside@.len() == cell_types@.len(),
            i <= cell_types@.len(),
            out@.len() == i,
            forall|j: int| 0 <= j < i ==> #[trigger] out@[j] == gc_fluid(cell_types@[j], intersect_inside@[j], seed_inside),
        decreases cell_types@.len() - i,
    {
        let ct = cell_types[i];
        let f = ct == CellType::Fluid || (ct == CellType::Intersect && intersect_inside[i] == seed_inside);
        out.push(f);
        i = i + 1;
    }
    out
}

/// The fluid leaves among the located stencil candidates, in order of first occurrence and
/// without repeats.
pub open spec fn distinct_fluid(found: Seq<Option<usize>>, fluid: Seq<bool>) -> Seq<usize>
    decreases found.len(),
{
    if found.len() == 0 {
        Seq::empty()
    } else {
        let prev = distinct_fluid(found.drop_last(), fluid);
        match found.last() {
            Some(id) => if fluid[id as int] && !prev.contains(id) { prev.push(id) } else { prev },
            None => prev,
        }
    }
}

fn contains_id(v: &Vec<usize>, id: usize) -> (r: bool)
    ensures
        r == v@.contains(id),
{
    let mut i: usize = 0;
    while i < v.len()
        invariant
            i <= v@.len(),
            forall|j: int| 0 <= j < i ==> #[trigger] v@[j] != id,
        decreases v@.len() - i,
    {
        if v[i] == id {
            assert(v@[i as int] == id);
            return true;
        }
        i = i + 1;
    }
    false
}

/// Interpolation stencil of a ghost cell: the distinct fluid leaves found at the probe points
/// around its image point, in probe order.
pub fn unique_fluid_cells(candidates: &[Option<usize>], gc_is_fluid: &[bool]) -> (r: Vec<usize>)
    requires
        forall|q: int| 0 <= q < candidates@.len() ==> (#[trigger] candidates@[q] matches Some(id) ==> id < gc_is_fluid@.len()),
    ensures
        r@ == distinct_fluid(candidates@, gc_is_fluid@),
{
    let mut out: Vec<usize> = Vec::new();
    let mut i: usize = 0;
    while i < candidates.len()
        invariant
            forall|q: int| 0 <= q < candidates@.len() ==> (#[trigger] candidates@[q] matches Some(id) ==> id < gc_is_fluid@.len()),
            i <= candidates@.len(),
            out@ == distinct_fluid(candidates@.take(i as int), gc_is_fluid@),
        decreases candidates@.len() - i,
    {
        proof {
            assert(candidates@.take(i + 1).drop_last() =~= candidates@.take(i as int));
        }
        match candidates[i] {
            Some(id) => {
                if gc_is_fluid[id] {
                    let seen = contains_id(&out, id);
                    if !seen {
                        out.push(id);
                    }
                }
            },
            None => {},
        }
        i = i + 1;
    }
    proof {
        assert(candidates@.take(candidates@.len() as int) =~= candidates@);
    }
    out
}

impl Forest {
    /// Indices of the computational ghost cells, in increasing order: the solid leaves that
    /// share a face with a fluid leaf.
    pub fn ghost_cell_ids(&self, gc_is_fluid: &[bool]) -> (r: Vec<usize>)
        requires
            grid_addressable(self.grid()),
            gc_is_fluid@.len() == self.key_seq().len(),
        ensures
            forall|q: int| 0 <= q < r@.len() ==> #[trigger] r@[q] < self.key_seq().len()
                && is_ghost_cell(self.key_seq(), self.grid(), gc_is_fluid@, r@[q] as int),
            forall|p: int, q: int| 0 <= p < q < r@.len() ==> #[trigger] r@[p] < #[trigger] r@[q],
            forall|i: int| 0 <= i < self.key_seq().len() && is_ghost_cell(self.key_seq(), self.grid(), gc_is_fluid@, i)
                ==> #[trigger] r@.contains(i as usize),
    {
        let n = self.num_cells();
        let mut out: Vec<usize> = Vec::new();
        let mut i: usize = 0;
        while i < n
            invariant
                n == self.key_seq().len(),
                grid_addressable(self.grid()),
                gc_is_fluid@.len() == n,
                i <= n,
                forall|q: int| 0 <= q < out@.len() ==> #[trigger] out@[q] < i
                    && is_ghost_cell(self.key_seq(), self.grid(), gc_is_fluid@, out@[q] as int),
                forall|p: int, q: int| 0 <= p < q < out@.len() ==> #[trigger] out@[p] < #[trigger] out@[q],
                forall|j: int| 0 <= j < i && is_ghost_cell(self.key_seq(), self.grid(), gc_is_fluid@, j)
                    ==> #[trigger] out@.contains(j as usize),
            decreases n - i,
        {
            let ghost before = out@;
            if self.is_ghost_cell(gc_is_fluid, i) {
                out.push(i);
                proof {
                    assert(out@[before.len() as int] == i);
                    assert forall|j: int| 0 <= j < i + 1 && is_ghost_cell(self.key_seq(), self.grid(), gc_is_fluid@, j)
                        implies #[trigger] out@.contains(j as usize) by {
                        if j < i {
                            assert(before.contains(j as usize));
                            let w = choose|w: int| 0 <= w < before.len() && before[w] == j as usize;
                            assert(out@[w] == j as usize);
                        }
                    }
                }
            }
            i = i + 1;
        }
        out
    }
}

/// A ghost cell is a solid leaf with a fluid leaf across any of its faces.
pub proof fn lemma_ghost_cell_any_face(ks: Seq<u128>, g: [u32; 3], fluid: Seq<bool>, i: int)
    requires
        0 <= i < ks.len(),
    ensures
        is_ghost_cell(ks, g, fluid, i) <==> (!fluid[i] && exists|j: int, d: Direction|
            0 <= j < ks.len() && fluid[j] && #[trigger] face_neighbours(ks, g, ks[i], d).contains(ks[j])),
{
    reveal(is_ghost_cell);
    crate::flood::lemma_dir_at_enumerates();
    if is_ghost_cell(ks, g, fluid, i) {
        let (k, j) = choose|k: int, j: int| 0 <= k < 6 && 0 <= j < ks.len() && #[trigger] adjacent_in_dir(ks, g, i, j, k) && fluid[j];
        let fnb = face_neighbours(ks, g, ks[i], dir_at(k));
        let q = choose|q: int| 0 <= q < fnb.len() && #[trigger] fnb[q] == ks[j];
        assert(fnb.contains(ks[j]));
    }
    if !fluid[i] && exists|j: int, d: Direction| 0 <= j < ks.len() && fluid[j] && #[trigger] face_neighbours(ks, g, ks[i], d).contains(ks[j]) {
        let (j, d) = choose|j: int, d: Direction| 0 <= j < ks.len() && fluid[j] && #[trigger] face_neighbours(ks, g, ks[i], d).contains(ks[j]);
        crate::flood::lemma_face_adjacent_any_direction(ks, g, i, j);
        let k = choose|k: int| 0 <= k < 6 && #[trigger] adjacent_in_dir(ks, g, i, j, k);
        assert(adjacent_in_dir(ks, g, i, j, k) && fluid[j]);
    }
}

/// Grid positions and tree identifiers correspond one to one: the identifier of the tree at
/// `(tx, ty, tz)` is below the number of trees, and the position is recovered from it, `x`
/// varying fastest (`id % nx`, `(id / nx) % ny`, `id / (nx * ny)`).
pub proof fn lemma_tree_index_decode(g: [u32; 3], tx: u32, ty: u32, tz: u32)
    requires
        tx < g[0],
        ty < g[1],
        tz < g[2],
    ensures
        0 <= tree_index(g, tx, ty, tz) < grid_trees(g),
        tree_index(g, tx, ty, tz) % (g[0] as int) == tx,
        (tree_index(g, tx, ty, tz) / (g[0] as int)) % (g[1] as int) == ty,
        tree_index(g, tx, ty, tz) / (g[0] as int * g[1] as int) == tz,
{
    let (a, b, c) = (g[0] as int, g[1] as int, g[2] as int);
    let (x, y, z) = (tx as int, ty as int, tz as int);
    let id = tree_index(g, tx, ty, tz);
    let hi = y + z * b;
    assert(id == hi * a + x) by (nonlinear_arith)
        requires id == x + y * a + z * a * b, hi == y + z * b;
    assert(hi >= 0 && hi < b * c) by (nonlinear_arith)
        requires 0 <= y < b, 0 <= z < c, hi == y + z * b;
    vstd::arithmetic::div_mod::lemma_fundamental_div_mod_converse(id, a, hi, x);
    vstd::arithmetic::div_mod::lemma_fundamental_div_mod_converse(hi, b, z, y);
    assert(id == z * (a * b) + (x + y * a)) by (nonlinear_arith)
        requires id == x + y * a + z * a * b;
    assert(0 <= x + y * a < a * b) by (nonlinear_arith)
        requires 0 <= x < a, 0 <= y < b;
    vstd::arithmetic::div_mod::lemma_fundamental_div_mod_converse(id, a * b, z, x + y * a);
    assert(0 <= id < a * b * c) by (nonlinear_arith)
        requires id == z * (a * b) + (x + y * a), 0 <= x + y * a < a * b, 0 <= z < c;
}

/// Distinct grid positions have distinct tree identifiers.
pub proof fn lemma_tree_index_injective(g: [u32; 3], p: (u32, u32, u32), q: (u32, u32, u32))
    requires
        p.0 < g[0] && p.1 < g[1] && p.2 < g[2],
        q.0 < g[0] && q.1 < g[1] && q.2 < g[2],
        tree_index(g, p.0, p.1, p.2) == tree_index(g, q.0, q.1, q.2),
    ensures
        p == q,
{
    lemma_tree_index_decode(g, p.0, p.1, p.2);
    lemma_tree_index_decode(g, q.0, q.1, q.2);
}

} // verus!
