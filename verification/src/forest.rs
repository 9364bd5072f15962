//! [`Forest`]: sparse multi-tree storage backed by a sorted key list.

use vstd::prelude::*;
use crate::key::{Key, key_is_cell, key_level, morton_shift, cell_end, pack_key, TREE_LIMIT};

verus! {

/// Every packed value is a well-formed cell.
pub open spec fn all_cells(ks: Seq<u128>) -> bool {
    forall|i: int| 0 <= i < ks.len() ==> key_is_cell(#[trigger] ks[i])
}

/// The cells are in increasing key order and pairwise disjoint: each cell's key range ends at
/// or before the key of every later cell.
pub open spec fn sorted_disjoint(ks: Seq<u128>) -> bool {
    forall|i: int, j: int| 0 <= i < j < ks.len() ==> cell_end(#[trigger] ks[i]) <= #[trigger] ks[j]
}

/// A well-formed leaf list: disjoint cells in space-filling-curve order.
pub open spec fn leaves_well_formed(ks: Seq<u128>) -> bool {
    all_cells(ks) && sorted_disjoint(ks)
}

/// Number of root trees of a base grid.
pub open spec fn grid_trees(base_res: [u32; 3]) -> int {
    base_res[0] as int * base_res[1] as int * base_res[2] as int
}

/// Multi-block sparse forest: no explicit octree links, only a sorted [`Key`] vector.
///
/// [`Key`] ordering follows the space-filling curve, which is the canonical ordering for
/// searches and bulk updates.
pub struct Forest {
    /// Cell keys in strict SFC (Morton) order.
    pub(crate) keys: Vec<Key>,
    /// Base grid resolution: number of root trees along each axis `[Nx, Ny, Nz]`.
    pub(crate) base_res: [u32; 3],
}

/// Whether the key names a cell: its Morton code is aligned to its level.
fn key_names_cell(k: &Key) -> (r: bool)
    ensures
        r == key_is_cell(k@),
{
    let lv = k.level();
    let m = k.morton();
    let s: u128 = 3 * (32 - lv as u128);
    assert(s == morton_shift(key_level(k@)));
    (m >> s) << s == m
}

/// The end of a cell's key range, or [`None`] when it does not fit in 128 bits.
fn checked_cell_end(k: &Key) -> (r: Option<u128>)
    requires
        key_is_cell(k@),
    ensures
        match r {
            Some(e) => e == cell_end(k@),
            None => cell_end(k@) > u128::MAX,
        },
{
    proof {
        crate::key::lemma_cell_range_nonempty(k@);
    }
    let lv = k.level();
    let m = k.morton();
    let t = k.tree_id();
    let s: u128 = 3 * (32 - lv as u128);
    assert(s == morton_shift(key_level(k@)));
    assert(s <= 96);
    let span: u128 = 1u128 << s;
    let base: u128 = (t as u128) * 0x40_0000_0000_0000_0000_0000_0000u128;
    let off: u128 = (m + span) * 64;
    base.checked_add(off)
}

impl Forest {
    /// Packed values of the leaf keys, in storage order.
    pub closed spec fn key_seq(&self) -> Seq<u128> {
        self.keys@.map_values(|k: Key| k@)
    }

    /// Base grid resolution `[Nx, Ny, Nz]`.
    pub closed spec fn grid(&self) -> [u32; 3] {
        self.base_res
    }

    /// The stored leaves are disjoint well-formed cells in key order.
    #[verifier::type_invariant]
    pub open spec fn well_formed(&self) -> bool {
        leaves_well_formed(self.key_seq())
    }

    /// Creates an empty forest with the given base resolution (number of root trees per axis).
    pub fn new(base_res: [u32; 3]) -> (r: Self)
        ensures
            r.key_seq() == Seq::<u128>::empty(),
            r.grid() == base_res,
    {
        let r = Forest { keys: Vec::new(), base_res };
        assert(r.key_seq() =~= Seq::<u128>::empty());
        r
    }

    /// Fills the forest with one level-0 root cell per tree in a regular `[nx × ny × nz]` grid.
    ///
    /// Keys are emitted in `tree_id = x + y * nx + z * nx * ny` order, which matches SFC order.
    pub fn populate_root_cells(&mut self)
        requires
            grid_trees(old(self).grid()) <= TREE_LIMIT,
        ensures
            final(self).grid() == old(self).grid(),
            final(self).key_seq().len() == grid_trees(old(self).grid()),
            forall|i: int|
                0 <= i < final(self).key_seq().len() ==> #[trigger] final(self).key_seq()[i]
                    == pack_key(i as u32, 0, 0),
    {
        let nx = self.base_res[0];
        let ny = self.base_res[1];
        let nz = self.base_res[2];
        let mut keys: Vec<Key> = Vec::new();
        let ghost total = grid_trees(self.base_res);
        let mut z: u32 = 0;
        assert(0 * nx as int * ny as int == 0) by (nonlinear_arith);
        while z < nz
            invariant
                nx == self.base_res[0] && ny == self.base_res[1] && nz == self.base_res[2],
                total == nx as int * ny as int * nz as int,
                total <= TREE_LIMIT,
                z <= nz,
                keys@.len() == z as int * nx as int * ny as int,
                forall|i: int| 0 <= i < keys@.len() ==> (#[trigger] keys@[i])@ == pack_key(i as u32, 0, 0),
            decreases nz - z,
        {
            proof {
                assert(nx as int * ny as int <= total) by (nonlinear_arith)
                    requires total == nx as int * ny as int * nz as int, z < nz, nx as int * ny as int >= 0;
                assert((z as int + 1) * (nx as int * ny as int) <= total) by (nonlinear_arith)
                    requires total == nx as int * ny as int * nz as int, z < nz, nx as int * ny as int >= 0;
                assert(z as int * nx as int * ny as int == z as int * (nx as int * ny as int)) by (nonlinear_arith);
            }
            let mut y: u32 = 0;
            while y < ny
                invariant
                    nx == self.base_res[0] && ny == self.base_res[1] && nz == self.base_res[2],
                    total == nx as int * ny as int * nz as int,
                    total <= TREE_LIMIT,
                    z < nz,
                    y <= ny,
                    (z as int + 1) * (nx as int * ny as int) <= total,
                    keys@.len() == z as int * (nx as int * ny as int) + y as int * nx as int,
                    forall|i: int| 0 <= i < keys@.len() ==> (#[trigger] keys@[i])@ == pack_key(i as u32, 0, 0),
                decreases ny - y,
            {
                proof {
                    assert((y as int + 1) * nx as int <= nx as int * ny as int) by (nonlinear_arith)
                        requires y < ny, nx >= 0;
                    assert(z as int * (nx as int * ny as int) + (y as int + 1) * nx as int <= total) by (nonlinear_arith)
                        requires (z as int + 1) * (nx as int * ny as int) <= total,
                            (y as int + 1) * nx as int <= nx as int * ny as int;
                }
                let mut x: u32 = 0;
                while x < nx
                    invariant
                        nx == self.base_res[0] && ny == self.base_res[1] && nz == self.base_res[2],
                        total <= TREE_LIMIT,
                        z < nz,
                        y < ny,
                        x <= nx,
                        z as int * (nx as int * ny as int) + (y as int + 1) * nx as int <= total,
                        keys@.len() == z as int * (nx as int * ny as int) + y as int * nx as int + x as int,
                        forall|i: int| 0 <= i < keys@.len() ==> (#[trigger] keys@[i])@ == pack_key(i as u32, 0, 0),
                    decreases nx - x,
                {
                    proof {
                        assert(z as int * (nx as int * ny as int) + y as int * nx as int + (x as int) < total) by (nonlinear_arith)
                            requires z as int * (nx as int * ny as int) + (y as int + 1) * nx as int <= total, x < nx;
                        assert(y as int * nx as int <= z as int * (nx as int * ny as int) + y as int * nx as int) by (nonlinear_arith)
                            requires z >= 0, nx >= 0, ny >= 0;
                        assert(z as int * (nx as int * ny as int) == z as int * nx as int * ny as int) by (nonlinear_arith);
                        assert(z as int * nx as int <= z as int * nx as int * ny as int) by (nonlinear_arith)
                            requires y < ny, z >= 0, nx >= 0;
                    }
                    let tree_id = x + y * nx + z * nx * ny;
                    let key = Key::root(tree_id);
                    let ghost before = keys@;
                    keys.push(key);
                    proof {
                        assert forall|i: int| 0 <= i < keys@.len() implies (#[trigger] keys@[i])@ == pack_key(i as u32, 0, 0) by {
                            if i < before.len() {
                                assert(keys@[i] == before[i]);
                            }
                        }
                    }
                    x = x + 1;
                }
                assert(z as int * (nx as int * ny as int) + y as int * nx as int + nx as int
                    == z as int * (nx as int * ny as int) + (y as int + 1) * nx as int) by (nonlinear_arith);
                y = y + 1;
            }
            proof {
                assert(z as int * (nx as int * ny as int) + ny as int * nx as int == (z as int + 1) * nx as int * ny as int) by (nonlinear_arith);
            }
            z = z + 1;
        }
        proof {
            assert(nz as int * nx as int * ny as int == total) by (nonlinear_arith)
                requires total == nx as int * ny as int * nz as int;
            let ks = keys@.map_values(|k: Key| k@);
            assert forall|i: int| 0 <= i < ks.len() implies key_is_cell(#[trigger] ks[i]) && ks[i] == pack_key(i as u32, 0, 0) by {
                crate::key::lemma_root_key(i as u32);
            }
            assert forall|i: int, j: int| 0 <= i < j < ks.len() implies cell_end(#[trigger] ks[i]) <= #[trigger] ks[j] by {
                crate::key::lemma_root_key(i as u32);
                crate::key::lemma_root_key(j as u32);
            }
        }
        self.replace_keys(keys);
    }

    /// Builds a forest over the given leaves; [`None`] unless they are well-formed cells that
    /// are pairwise disjoint and in increasing key order.
    pub fn from_keys(base_res: [u32; 3], keys: Vec<Key>) -> (r: Option<Self>)
        ensures
            r is Some <==> leaves_well_formed(keys@.map_values(|k: Key| k@)),
            match r {
                Some(f) => f.key_seq() == keys@.map_values(|k: Key| k@) && f.grid() == base_res,
                None => true,
            },
    {
        let ghost ks = keys@.map_values(|k: Key| k@);
        let n = keys.len();
        let mut i: usize = 0;
        while i < n
            invariant
                n == keys@.len(),
                ks == keys@.map_values(|k: Key| k@),
                i <= n,
                forall|p: int| 0 <= p < i ==> key_is_cell(#[trigger] ks[p]),
                forall|p: int, q: int| 0 <= p < q < i ==> cell_end(#[trigger] ks[p]) <= #[trigger] ks[q],
            decreases n - i,
        {
            assert(ks[i as int] == keys@[i as int]@);
            if !key_names_cell(&keys[i]) {
                assert(!all_cells(ks));
                return None;
            }
            if i > 0 {
                let prev = &keys[i - 1];
                assert(ks[i - 1] == keys@[i - 1]@);
                match checked_cell_end(prev) {
                    Some(e) => {
                        if e > keys[i].packed() {
                            assert(!sorted_disjoint(ks)) by {
                                assert(cell_end(ks[i - 1]) > ks[i as int]);
                            }
                            return None;
                        }
                        proof {
                            crate::key::lemma_cell_range_nonempty(ks[i - 1]);
                            assert forall|p: int, q: int| 0 <= p < q < i + 1 implies cell_end(#[trigger] ks[p]) <= #[trigger] ks[q] by {
                                if q == i && p < i - 1 {
                                    assert(cell_end(ks[p]) <= ks[i - 1]);
                                }
                            }
                        }
                    },
                    None => {
                        assert(!sorted_disjoint(ks)) by {
                            assert(cell_end(ks[i - 1]) > ks[i as int]);
                        }
                        return None;
                    },
                }
            }
            i = i + 1;
        }
        let f = Forest { keys, base_res };
        Some(f)
    }

    /// Returns the number of leaf cells (keys) currently stored.
    pub fn num_cells(&self) -> (r: usize)
        ensures
            r == self.key_seq().len(),
            self.well_formed(),
    {
        proof {
            use_type_invariant(self);
        }
        self.keys.len()
    }

    /// Returns the sorted key slice.
    pub fn keys(&self) -> (r: &[Key])
        ensures
            r@.map_values(|k: Key| k@) == self.key_seq(),
            self.well_formed(),
    {
        proof {
            use_type_invariant(self);
        }
        self.keys.as_slice()
    }

    /// Base grid resolution `[Nx, Ny, Nz]`.
    pub fn base_res(&self) -> (r: [u32; 3])
        ensures
            r == self.grid(),
    {
        self.base_res
    }

    /// Replaces the leaf list, keeping the base grid.
    pub(crate) fn replace_keys(&mut self, keys: Vec<Key>)
        requires
            leaves_well_formed(keys@.map_values(|k: Key| k@)),
        ensures
            final(self).key_seq() == keys@.map_values(|k: Key| k@),
            final(self).grid() == old(self).grid(),
    {
        self.keys = keys;
    }
}

} // verus!
