//! Packed cell keys: a [`Key`] is a single `u128` that stores `tree_id`, Morton code and
//! `level`, so that the order of the packed value is the space-filling-curve order of the cells.
//!
//! Bit layout (low to high): `[ level (6) | morton_code (96) | tree_id (26) ]`.

use vstd::prelude::*;
use crate::morton::{encode, decode, morton_of, lane_of, lemma_morton_of, lemma_lanes_of, lemma_morton_code_unique, lemma_morton_code_injective};
use crate::MAX_LEVEL;

verus! {

/// Number of distinct tree identifiers a key can hold (`2^26`).
pub const TREE_LIMIT: u32 = 0x400_0000;

/// Exclusive upper bound of a 96-bit Morton code (`2^96`).
pub const MORTON_LIMIT: u128 = 0x1_0000_0000_0000_0000_0000_0000;

/// Packs the three fields into the 128-bit layout.
pub open spec fn pack_key(tree_id: u32, morton: u128, level: u8) -> u128 {
    ((tree_id as u128) << 102u128) | (morton << 6u128) | (level as u128)
}

/// Tree identifier stored in a packed key.
pub open spec fn key_tree_id(raw: u128) -> u32 {
    (raw >> 102u128) as u32
}

/// Morton code stored in a packed key.
pub open spec fn key_morton(raw: u128) -> u128 {
    (raw >> 6u128) & 0xFFFF_FFFF_FFFF_FFFF_FFFF_FFFFu128
}

/// Refinement level stored in a packed key.
pub open spec fn key_level(raw: u128) -> u8 {
    (raw & 63u128) as u8
}

/// Number of low Morton bits that select a position inside a cell at `level`.
pub open spec fn morton_shift(level: u8) -> u128 {
    (3 * (32 - level)) as u128
}

/// Morton code `m` names a cell corner at `level`: its low `3 * (32 - level)` bits are clear.
pub open spec fn morton_aligned(m: u128, level: u8) -> bool {
    (m >> morton_shift(level)) << morton_shift(level) == m
}

/// The packed value is a well-formed cell: level in range and Morton code aligned to it.
pub open spec fn key_is_cell(raw: u128) -> bool {
    key_level(raw) <= 32 && morton_aligned(key_morton(raw), key_level(raw))
}

/// Coordinate `v` is a multiple of the edge length `2^(32 - level)` of a cell at `level`.
pub open spec fn coord_aligned(v: u32, level: u8) -> bool {
    ((v as u64) >> ((32 - level) as u64)) << ((32 - level) as u64) == v as u64
}

/// The packed key of a logical cell.
pub open spec fn key_of_cell(cell: LogicalCell) -> u128 {
    pack_key(cell.tree_id, morton_of(cell.x, cell.y, cell.z), cell.level)
}

/// The logical cell a packed key stands for.
pub open spec fn cell_of_key(raw: u128) -> LogicalCell {
    LogicalCell {
        tree_id: key_tree_id(raw),
        x: lane_of(key_morton(raw), 0),
        y: lane_of(key_morton(raw), 1),
        z: lane_of(key_morton(raw), 2),
        level: key_level(raw),
    }
}

/// Human-readable cell in logical coordinates: the expanded form of a [`Key`].
#[derive(Debug, Clone, Copy, PartialEq, Eq, Structural)]
pub struct LogicalCell {
    /// Identifier of the root tree this cell belongs to.
    pub tree_id: u32,
    /// Logical X coordinate of the cell corner.
    pub x: u32,
    /// Logical Y coordinate of the cell corner.
    pub y: u32,
    /// Logical Z coordinate of the cell corner.
    pub z: u32,
    /// Refinement depth: `0` is the coarsest root cell.
    pub level: u8,
}

impl LogicalCell {
    /// The corner of this cell is aligned to its level on every axis, and the level is in range.
    pub open spec fn is_aligned(self) -> bool {
        &&& self.level <= 32
        &&& coord_aligned(self.x, self.level)
        &&& coord_aligned(self.y, self.level)
        &&& coord_aligned(self.z, self.level)
    }

    /// Constructs a logical cell whose corner `(x, y, z)` is aligned to the cell size at `level`.
    ///
    /// At level `L` every coordinate must be a multiple of `2^(32 - L)`; at level `0` the only
    /// such coordinate is `0`.
    pub fn new(tree_id: u32, x: u32, y: u32, z: u32, level: u8) -> (r: Self)
        requires
            level <= MAX_LEVEL,
            coord_aligned(x, level),
            coord_aligned(y, level),
            coord_aligned(z, level),
        ensures
            r == (LogicalCell { tree_id, x, y, z, level }),
            r.is_aligned(),
    {
        let mask: u32 = if level == 0 {
            u32::MAX
        } else {
            let sh: u32 = (MAX_LEVEL - level) as u32;
            assert(1u32 << sh >= 1) by (bit_vector)
                requires
                    sh < 32,
            ;
            (1u32 << sh) - 1
        };
        proof {
            let s: u64 = (32 - level) as u64;
            let xs = x;
            let ys = y;
            let zs = z;
            if level == 0 {
                assert(xs & 0xFFFF_FFFFu32 == 0 && ys & 0xFFFF_FFFFu32 == 0 && zs & 0xFFFF_FFFFu32 == 0) by (bit_vector)
                    requires
                        ((xs as u64) >> 32u64) << 32u64 == xs as u64,
                        ((ys as u64) >> 32u64) << 32u64 == ys as u64,
                        ((zs as u64) >> 32u64) << 32u64 == zs as u64,
                ;
            } else {
                let t: u32 = (32 - level) as u32;
                let mk: u32 = mask;
                assert(mk == (1u32 << t) - 1);
                assert(forall|v: u32|
                    ((v as u64) >> s) << s == v as u64 ==> #[trigger] (v & mk) == 0)
                    by (bit_vector)
                    requires
                        t < 32,
                        s == t as u64,
                        mk == (1u32 << t) - 1,
                ;
            }
        }
        assert((x & mask) == 0);
        assert((y & mask) == 0);
        assert((z & mask) == 0);
        LogicalCell { tree_id, x, y, z, level }
    }

    /// Root cell for `tree_id`: origin `(0, 0, 0)` at level `0`.
    pub fn root(tree_id: u32) -> (r: Self)
        ensures
            r == (LogicalCell { tree_id, x: 0, y: 0, z: 0, level: 0 }),
    {
        assert(coord_aligned(0, 0)) by (bit_vector);
        Self::new(tree_id, 0, 0, 0, 0)
    }

    /// Edge length of a cell at this level in logical units: `2^(32 - level)`.
    pub fn size(&self) -> (r: u64)
        requires
            self.level <= MAX_LEVEL,
        ensures
            r == 1u64 << ((32 - self.level) as u64),
            1 <= r <= 0x1_0000_0000u64,
    {
        proof { lemma_edge_range(self.level); }
        1u64 << (MAX_LEVEL - self.level)
    }
}


/// Packed cell identifier: canonical storage and ordering key for octree cells.
///
/// The order of keys is the order of their packed values: tree first, then Morton code, then
/// level, which is a full space-filling-curve order.
#[derive(Debug, Clone, Copy, PartialEq, Eq, PartialOrd, Ord, Hash, Structural)]
pub struct Key(u128);

impl View for Key {
    type V = u128;

    closed spec fn view(&self) -> u128 {
        self.0
    }
}

/// Packed value of the parent of the cell `raw` (one level up, child-selector bits cleared).
pub open spec fn parent_raw(raw: u128) -> u128 {
    let pl = (key_level(raw) - 1) as u8;
    pack_key(
        key_tree_id(raw),
        (key_morton(raw) >> morton_shift(pl)) << morton_shift(pl),
        pl,
    )
}

/// Packed value of child `j` (`0..8`) of the cell `raw`.
pub open spec fn child_raw(raw: u128, j: u128) -> u128 {
    let cl = (key_level(raw) + 1) as u8;
    pack_key(key_tree_id(raw), key_morton(raw) | (j << morton_shift(cl)), cl)
}

/// Exclusive end, in packed order, of the range of keys covered by the cell `raw`: its own key
/// and the keys of all its descendants lie in `[raw, cell_end(raw))`.
pub open spec fn cell_end(raw: u128) -> int {
    key_tree_id(raw) as int * 0x40_0000_0000_0000_0000_0000_0000int + (key_morton(raw) as int
        + (1u128 << morton_shift(key_level(raw))) as int) * 64
}

proof fn lemma_pack_fields(t: u32, m: u128, l: u8)
    by (bit_vector)
    requires
        t < 0x400_0000u32,
        m < 0x1_0000_0000_0000_0000_0000_0000u128,
        l < 64u8,
    ensures
        key_tree_id(pack_key(t, m, l)) == t,
        key_morton(pack_key(t, m, l)) == m,
        key_level(pack_key(t, m, l)) == l,
        pack_key(t, m, l) == t * 0x40_0000_0000_0000_0000_0000_0000int + m * 64 + l,
{
}

proof fn lemma_unpack(raw: u128)
    by (bit_vector)
    ensures
        key_tree_id(raw) < 0x400_0000u32,
        key_morton(raw) < 0x1_0000_0000_0000_0000_0000_0000u128,
        key_level(raw) < 64u8,
        pack_key(key_tree_id(raw), key_morton(raw), key_level(raw)) == raw,
{
}

/// A packed value is determined by its three fields and equals
/// `tree_id * 2^102 + morton * 64 + level`.
pub proof fn lemma_key_value(raw: u128)
    ensures
        raw == key_tree_id(raw) * 0x40_0000_0000_0000_0000_0000_0000int + key_morton(raw) * 64
            + key_level(raw),
        key_tree_id(raw) < 0x400_0000u32,
        key_morton(raw) < 0x1_0000_0000_0000_0000_0000_0000u128,
        key_level(raw) < 64,
{
    lemma_unpack(raw);
    lemma_pack_fields(key_tree_id(raw), key_morton(raw), key_level(raw));
}

/// Keys are equal exactly when their packed values are.
pub proof fn lemma_key_eq(a: Key, b: Key)
    ensures
        a == b <==> a@ == b@,
{
}

impl Key {
    #[verifier::type_invariant]
    spec fn level_in_range(self) -> bool {
        key_level(self.0) <= 32
    }

    /// Packs `tree_id`, `morton` and `level` into a [`Key`].
    pub fn new(tree_id: u32, morton: u128, level: u8) -> (r: Self)
        requires
            tree_id < TREE_LIMIT,
            morton < MORTON_LIMIT,
            level <= MAX_LEVEL,
        ensures
            r@ == pack_key(tree_id, morton, level),
            key_tree_id(r@) == tree_id,
            key_morton(r@) == morton,
            key_level(r@) == level,
    {
        proof {
            lemma_pack_fields(tree_id, morton, level);
        }
        let packed = ((tree_id as u128) << 102u32) | (morton << 6u32) | (level as u128);
        assert(packed == pack_key(tree_id, morton, level)) by (bit_vector)
            requires
                packed == ((tree_id as u128) << 102u32) | (morton << 6u32) | (level as u128),
        ;
        Key(packed)
    }

    /// Returns the packed 128-bit value; keys are ordered by it.
    pub fn packed(&self) -> (r: u128)
        ensures
            r == self@,
    {
        self.0
    }

    /// Returns the 26-bit tree identifier field.
    pub fn tree_id(&self) -> (r: u32)
        ensures
            r == key_tree_id(self@),
            r < TREE_LIMIT,
    {
        let raw = self.0;
        let r = ((raw & 0xffff_ffc0_0000_0000_0000_0000_0000_0000u128) >> 102u32) as u32;
        assert(r == key_tree_id(raw) && r < 0x400_0000u32) by (bit_vector)
            requires
                r == ((raw & 0xffff_ffc0_0000_0000_0000_0000_0000_0000u128) >> 102u32) as u32,
        ;
        r
    }

    /// Returns the 96-bit Morton code (interleaved `x`, `y`, `z`).
    pub fn morton(&self) -> (r: u128)
        ensures
            r == key_morton(self@),
            r < MORTON_LIMIT,
    {
        let raw = self.0;
        let r = (raw & 0x3f_ffff_ffff_ffff_ffff_ffff_ffc0u128) >> 6u32;
        assert(r == key_morton(raw) && r < 0x1_0000_0000_0000_0000_0000_0000u128) by (bit_vector)
            requires
                r == (raw & 0x3f_ffff_ffff_ffff_ffff_ffff_ffc0u128) >> 6u32,
        ;
        r
    }

    /// Returns the 6-bit refinement level.
    pub fn level(&self) -> (r: u8)
        ensures
            r == key_level(self@),
            r <= MAX_LEVEL,
    {
        proof {
            use_type_invariant(self);
        }
        let raw = self.0;
        let r = (raw & 63u128) as u8;
        r
    }

    /// Builds a [`Key`] from a [`LogicalCell`], encoding `(x, y, z)` as a Morton code.
    pub fn from_logical(cell: &LogicalCell) -> (r: Self)
        requires
            cell.tree_id < TREE_LIMIT,
            cell.level <= MAX_LEVEL,
        ensures
            r@ == key_of_cell(*cell),
    {
        let morton = encode(cell.x, cell.y, cell.z);
        proof {
            lemma_morton_of(cell.x, cell.y, cell.z);
        }
        Self::new(cell.tree_id, morton, cell.level)
    }

    /// Decodes this key to a [`LogicalCell`].
    pub fn to_logical(&self) -> (r: LogicalCell)
        ensures
            r == cell_of_key(self@),
            r.level <= MAX_LEVEL,
    {
        let m = self.morton();
        let (x, y, z) = decode(m);
        LogicalCell { tree_id: self.tree_id(), x, y, z, level: self.level() }
    }

    /// Root key for `tree_id`: zero Morton code and level `0`.
    pub fn root(tree_id: u32) -> (r: Self)
        requires
            tree_id < TREE_LIMIT,
        ensures
            r@ == pack_key(tree_id, 0, 0),
            key_tree_id(r@) == tree_id,
            key_morton(r@) == 0,
            key_level(r@) == 0,
    {
        Self::new(tree_id, 0, 0)
    }

    /// Parent cell: clears the child-selector bits of this level; [`None`] at level `0`.
    pub fn parent(&self) -> (r: Option<Self>)
        ensures
            key_level(self@) == 0 <==> r is None,
            r matches Some(p) ==> p@ == parent_raw(self@),
    {
        let level = self.level();
        if level == 0 {
            return None;
        }
        let parent_level = level - 1;
        let shift: u32 = 3 * ((MAX_LEVEL - parent_level) as u32);
        let mask = u128::MAX << shift;
        let parent_morton = self.morton() & mask;
        proof {
            let m = key_morton(self@);
            let s: u128 = shift as u128;
            assert(parent_morton == (m >> s) << s && parent_morton < 0x1_0000_0000_0000_0000_0000_0000u128) by (bit_vector)
                requires
                    s <= 96,
                    shift as u128 == s,
                    m < 0x1_0000_0000_0000_0000_0000_0000u128,
                    parent_morton == m & (0xffff_ffff_ffff_ffff_ffff_ffff_ffff_ffffu128 << shift),
            ;
        }
        Some(Self::new(self.tree_id(), parent_morton, parent_level))
    }

    /// The eight child cells, in Morton order.
    pub fn children(&self) -> (r: [Self; 8])
        requires
            key_level(self@) < MAX_LEVEL,
        ensures
            forall|j: int| 0 <= j < 8 ==> (#[trigger] r[j])@ == child_raw(self@, j as u128),
    {
        let level = self.level();
        let child_level = level + 1;
        let shift: u32 = 3 * ((MAX_LEVEL - child_level) as u32);
        let base_morton = self.morton();
        let tree_id = self.tree_id();
        proof {
            let s: u128 = shift as u128;
            assert((forall|j: u128| j < 8 ==> (#[trigger] (base_morton | (j << s))) < 0x1_0000_0000_0000_0000_0000_0000u128)
                && (forall|j: u128| j < 8 ==> (#[trigger] (j << shift)) == j << s))
                by (bit_vector)
                requires
                    s == shift as u128,
                    s <= 93,
                    base_morton < 0x1_0000_0000_0000_0000_0000_0000u128,
            ;
        }
        [
            Self::new(tree_id, base_morton | (0u128 << shift), child_level),
            Self::new(tree_id, base_morton | (1u128 << shift), child_level),
            Self::new(tree_id, base_morton | (2u128 << shift), child_level),
            Self::new(tree_id, base_morton | (3u128 << shift), child_level),
            Self::new(tree_id, base_morton | (4u128 << shift), child_level),
            Self::new(tree_id, base_morton | (5u128 << shift), child_level),
            Self::new(tree_id, base_morton | (6u128 << shift), child_level),
            Self::new(tree_id, base_morton | (7u128 << shift), child_level),
        ]
    }
}

// ---------------------------------------------------------------------------------------------
// Laws of the key layout.

/// Keys order lexicographically by tree, then Morton code, then level.
pub proof fn lemma_key_order(a: u128, b: u128)
    ensures
        a < b <==> (key_tree_id(a) < key_tree_id(b) || (key_tree_id(a) == key_tree_id(b)
            && key_morton(a) < key_morton(b)) || (key_tree_id(a) == key_tree_id(b) && key_morton(
            a,
        ) == key_morton(b) && key_level(a) < key_level(b))),
        a == b <==> (key_tree_id(a) == key_tree_id(b) && key_morton(a) == key_morton(b)
            && key_level(a) == key_level(b)),
{
    lemma_key_value(a);
    lemma_key_value(b);
}

proof fn lemma_aligned_disjoint(m: u128, j: u128, s: u128, t: u128)
    by (bit_vector)
    requires
        s <= 93,
        t == s + 3,
        (m >> t) << t == m,
        j < 8,
    ensures
        m & (j << s) == 0,
{
}

proof fn lemma_or_is_add(a: u128, b: u128)
    by (bit_vector)
    requires
        a & b == 0,
    ensures
        a | b == a + b,
{
}

proof fn lemma_small_shl(j: u128, s: u128)
    by (bit_vector)
    requires
        s <= 93,
        j < 8,
    ensures
        j << s == j * (1u128 << s),
        j << s < 0x1_0000_0000_0000_0000_0000_0000u128,
        (j << s) >> s << s == j << s,
{
}

proof fn lemma_aligned_finer(m: u128, s: u128, t: u128)
    by (bit_vector)
    requires
        s <= 93,
        t == s + 3,
        (m >> t) << t == m,
    ensures
        (m >> s) << s == m,
{
}

proof fn lemma_aligned_mask(x: u128, s: u128, low: u128)
    by (bit_vector)
    requires
        s <= 96,
        low == (1u128 << s) - 1,
    ensures
        ((x >> s) << s == x) == (x & low == 0),
{
}

proof fn lemma_or_low_clear(a: u128, b: u128, low: u128)
    by (bit_vector)
    requires
        a & low == 0,
        b & low == 0,
    ensures
        (a | b) & low == 0,
{
}

proof fn lemma_or_aligned(a: u128, b: u128, s: u128)
    requires
        s <= 96,
        (a >> s) << s == a,
        (b >> s) << s == b,
    ensures
        ((a | b) >> s) << s == a | b,
{
    assert(1u128 << s >= 1) by (bit_vector)
        requires
            s <= 96,
    ;
    let low: u128 = ((1u128 << s) - 1) as u128;
    lemma_aligned_mask(a, s, low);
    lemma_aligned_mask(b, s, low);
    lemma_aligned_mask(a | b, s, low);
    lemma_or_low_clear(a, b, low);
}

proof fn lemma_or_clear_low(m: u128, j: u128, s: u128, t: u128)
    by (bit_vector)
    requires
        s <= 93,
        t == s + 3,
        (m >> t) << t == m,
        j < 8,
    ensures
        ((m | (j << s)) >> t) << t == m,
{
}

/// The edge `2^(32 - level)` of a cell at a level up to 32 lies in `[1, 2^32]`.
pub proof fn lemma_edge_range(level: u8)
    by (bit_vector)
    requires
        level <= 32,
    ensures
        1u64 <= (1u64 << ((32 - level) as u64)) <= 0x1_0000_0000u64,
{
}

proof fn lemma_or_bound(a: u128, b: u128)
    by (bit_vector)
    requires
        a < 0x1_0000_0000_0000_0000_0000_0000u128,
        b < 0x1_0000_0000_0000_0000_0000_0000u128,
    ensures
        a | b < 0x1_0000_0000_0000_0000_0000_0000u128,
{
}

proof fn lemma_shift_step(s: u128, t: u128)
    by (bit_vector)
    requires
        s <= 93,
        t == s + 3,
    ensures
        1u128 << t == 8 * (1u128 << s),
        1u128 << s >= 1,
{
}

proof fn lemma_aligned_room(m: u128, t: u128)
    by (bit_vector)
    requires
        t <= 96,
        (m >> t) << t == m,
        m < 0x1_0000_0000_0000_0000_0000_0000u128,
    ensures
        m + (1u128 << t) <= 0x1_0000_0000_0000_0000_0000_0000u128,
        1u128 <= 1u128 << t,
{
}

proof fn lemma_aligned_or(m: u128, j: u128, s: u128, t: u128)
    requires
        s <= 93,
        t == s + 3,
        (m >> t) << t == m,
        j < 8,
        m < 0x1_0000_0000_0000_0000_0000_0000u128,
    ensures
        m | (j << s) == m + j * (1u128 << s),
        ((m | (j << s)) >> s) << s == m | (j << s),
        ((m | (j << s)) >> t) << t == m,
        m | (j << s) < 0x1_0000_0000_0000_0000_0000_0000u128,
        1u128 << t == 8 * (1u128 << s),
        m + 8 * (1u128 << s) <= 0x1_0000_0000_0000_0000_0000_0000u128,
{
    lemma_aligned_disjoint(m, j, s, t);
    lemma_or_is_add(m, j << s);
    lemma_small_shl(j, s);
    lemma_aligned_finer(m, s, t);
    lemma_or_aligned(m, j << s, s);
    lemma_or_clear_low(m, j, s, t);
    lemma_or_bound(m, j << s);
    lemma_shift_step(s, t);
    lemma_aligned_room(m, t);
}

/// Each of the eight children of a cell is a cell one level deeper whose parent is that cell;
/// the children follow the cell in key order, are increasing, do not overlap, and exactly fill
/// the key range of the cell.
pub proof fn lemma_children_of_cell(raw: u128)
    requires
        key_is_cell(raw),
        key_level(raw) < 32,
    ensures
        forall|j: u128| j < 8 ==> key_is_cell(#[trigger] child_raw(raw, j)),
        forall|j: u128| j < 8 ==> parent_raw(#[trigger] child_raw(raw, j)) == raw,
        forall|j: u128| j < 8 ==> key_level(#[trigger] child_raw(raw, j)) == key_level(raw) + 1,
        forall|j: u128| j < 8 ==> key_tree_id(#[trigger] child_raw(raw, j)) == key_tree_id(raw),
        raw < child_raw(raw, 0),
        forall|j: u128| j < 7 ==> cell_end(#[trigger] child_raw(raw, j)) < child_raw(raw, (j + 1) as u128),
        forall|j: u128| j < 8 ==> child_raw(raw, j) < cell_end(#[trigger] child_raw(raw, j)),
        cell_end(child_raw(raw, 7)) == cell_end(raw),
        forall|p: u128, q: u128| p < q < 8 ==> cell_end(#[trigger] child_raw(raw, p)) <= #[trigger] child_raw(raw, q),
        forall|j: u128| j < 8 ==> cell_end(#[trigger] child_raw(raw, j)) <= cell_end(raw),
        child_raw(raw, 0) == raw + 1,
        forall|j: u128| j < 8 ==> #[trigger] child_raw(raw, j) == key_tree_id(raw) * 0x40_0000_0000_0000_0000_0000_0000int
            + (key_morton(raw) + j * (1u128 << morton_shift((key_level(raw) + 1) as u8))) * 64 + key_level(raw) + 1,
        forall|j: u128| j < 8 ==> cell_end(#[trigger] child_raw(raw, j)) == key_tree_id(raw) * 0x40_0000_0000_0000_0000_0000_0000int
            + (key_morton(raw) + (j + 1) * (1u128 << morton_shift((key_level(raw) + 1) as u8))) * 64,
        cell_end(raw) == key_tree_id(raw) * 0x40_0000_0000_0000_0000_0000_0000int
            + (key_morton(raw) + 8 * (1u128 << morton_shift((key_level(raw) + 1) as u8))) * 64,
        1u128 << morton_shift((key_level(raw) + 1) as u8) >= 1,
{
    let t = key_tree_id(raw);
    let m = key_morton(raw);
    let l = key_level(raw);
    let cl = (l + 1) as u8;
    let s = morton_shift(cl);
    let ps = morton_shift(l);
    lemma_key_value(raw);
    assert forall|j: u128| j < 8 implies {
        &&& key_is_cell(#[trigger] child_raw(raw, j))
        &&& parent_raw(child_raw(raw, j)) == raw
        &&& key_level(child_raw(raw, j)) == l + 1
        &&& key_tree_id(child_raw(raw, j)) == t
        &&& child_raw(raw, j) == t * 0x40_0000_0000_0000_0000_0000_0000int + (m + j * (1u128 << s)) * 64 + l + 1
        &&& cell_end(child_raw(raw, j)) == t * 0x40_0000_0000_0000_0000_0000_0000int + (m + (j + 1) * (1u128 << s)) * 64
        &&& child_raw(raw, j) < cell_end(child_raw(raw, j))
    } by {
        lemma_shift_step(s, ps);
        lemma_aligned_or(m, j, s, ps);
        let cm = m | (j << s);
        let c = child_raw(raw, j);
        lemma_pack_fields(t, cm, cl);
        assert(c == pack_key(t, cm, cl));
        assert(key_morton(c) == cm);
        assert(key_level(c) == cl);
        assert(morton_shift(cl) == s);
        assert(key_is_cell(c));
        assert(morton_shift((key_level(c) - 1) as u8) == ps);
        assert(parent_raw(c) == pack_key(t, (cm >> ps) << ps, l));
        lemma_unpack(raw);
        assert(pack_key(t, m, l) == raw);
        assert(parent_raw(c) == raw);
        assert(c == t * 0x40_0000_0000_0000_0000_0000_0000int + cm * 64 + cl);
        assert(cell_end(c) == t * 0x40_0000_0000_0000_0000_0000_0000int + (cm as int + (1u128 << s) as int) * 64);
        let x = (1u128 << s) as int;
        assert((j + 1) * x == j * x + x) by (nonlinear_arith);
    }
    lemma_shift_step(s, ps);
    lemma_aligned_or(m, 0, s, ps);
    assert(cell_end(raw) == t * 0x40_0000_0000_0000_0000_0000_0000int + (m + 8 * (1u128 << s)) * 64);
    assert(child_raw(raw, 7) == t * 0x40_0000_0000_0000_0000_0000_0000int + (m + 7 * (1u128 << s)) * 64 + l + 1);
    assert(forall|j: u128| j < 7 ==> #[trigger] child_raw(raw, (j + 1) as u128) == t * 0x40_0000_0000_0000_0000_0000_0000int + (m + (j + 1) * (1u128 << s)) * 64 + l + 1);
    let x = (1u128 << s) as int;
    assert forall|p: u128, q: u128| p < q < 8 implies cell_end(#[trigger] child_raw(raw, p)) <= #[trigger] child_raw(raw, q) by {
        vstd::arithmetic::mul::lemma_mul_inequality((p + 1) as int, q as int, x);
    }
    assert forall|j: u128| j < 8 implies cell_end(#[trigger] child_raw(raw, j)) <= cell_end(raw) by {
        vstd::arithmetic::mul::lemma_mul_inequality((j + 1) as int, 8, x);
    }
    assert(0 * x == 0) by (nonlinear_arith);
}

/// A cell that ends at or before the first child of another cell also ends at or before that
/// other cell.
pub proof fn lemma_end_before_first_child(q: u128, p: u128)
    requires
        key_is_cell(q),
        key_is_cell(p),
        key_level(p) < 32,
        cell_end(q) <= child_raw(p, 0),
    ensures
        cell_end(q) <= p,
{
    lemma_children_of_cell(p);
    lemma_key_value(p);
    lemma_cell_range_nonempty(q);
    let a = key_tree_id(q) as int * 0x1_0000_0000_0000_0000_0000_0000int + key_morton(q) as int
        + (1u128 << morton_shift(key_level(q))) as int;
    let b = key_tree_id(p) as int * 0x1_0000_0000_0000_0000_0000_0000int + key_morton(p) as int;
    assert(cell_end(q) == a * 64);
    assert(p == b * 64 + key_level(p));
}

/// The parent of a cell above the root is a cell one level up that contains it.
#[verifier::rlimit(60)]
pub proof fn lemma_parent_of_cell(raw: u128)
    requires
        key_is_cell(raw),
        key_level(raw) > 0,
    ensures
        key_is_cell(parent_raw(raw)),
        key_level(parent_raw(raw)) == key_level(raw) - 1,
        key_tree_id(parent_raw(raw)) == key_tree_id(raw),
        parent_raw(raw) < raw,
{
    let t = key_tree_id(raw);
    let m = key_morton(raw);
    let l = key_level(raw);
    let pl = (l - 1) as u8;
    let s = morton_shift(l);
    let ps = morton_shift(pl);
    let pm = (m >> ps) << ps;
    lemma_key_value(raw);
    let mask: u128 = 0xffff_ffff_ffff_ffff_ffff_ffff_ffff_ffffu128 << ps;
    assert(pm == m & mask && (m & mask) <= m && (pm >> ps) << ps == pm) by (bit_vector)
        requires
            ps <= 96,
            pm == (m >> ps) << ps,
            mask == 0xffff_ffff_ffff_ffff_ffff_ffff_ffff_ffffu128 << ps,
    ;
    lemma_pack_fields(t, pm, pl);
}

/// A cell's key lies strictly before the end of its range.
pub proof fn lemma_cell_range_nonempty(raw: u128)
    requires
        key_is_cell(raw),
    ensures
        raw < cell_end(raw),
        cell_end(raw) <= (key_tree_id(raw) as int + 1) * 0x40_0000_0000_0000_0000_0000_0000int,
{
    let m = key_morton(raw);
    let s = morton_shift(key_level(raw));
    lemma_key_value(raw);
    lemma_aligned_room(m, s);
}

/// Decoding the key built from a cell gives the cell back.
pub proof fn lemma_logical_round_trip(cell: LogicalCell)
    requires
        cell.tree_id < TREE_LIMIT,
        cell.level <= 32,
    ensures
        cell_of_key(key_of_cell(cell)) == cell,
{
    let m = morton_of(cell.x, cell.y, cell.z);
    lemma_morton_of(cell.x, cell.y, cell.z);
    lemma_pack_fields(cell.tree_id, m, cell.level);
    lemma_lanes_of(m);
    lemma_morton_code_injective(m, cell.x, cell.y, cell.z, lane_of(m, 0), lane_of(m, 1), lane_of(m, 2));
}

/// Building a key from the decoding of a key gives the key back.
pub proof fn lemma_key_round_trip(k: u128)
    ensures
        key_of_cell(cell_of_key(k)) == k,
{
    let m = key_morton(k);
    lemma_unpack(k);
    lemma_lanes_of(m);
    lemma_morton_of(lane_of(m, 0), lane_of(m, 1), lane_of(m, 2));
    lemma_morton_code_unique(m, morton_of(lane_of(m, 0), lane_of(m, 1), lane_of(m, 2)), lane_of(m, 0), lane_of(m, 1), lane_of(m, 2));
}

/// The root key of a tree is a cell whose range is exactly that tree.
pub proof fn lemma_root_key(t: u32)
    requires
        t < TREE_LIMIT,
    ensures
        key_is_cell(pack_key(t, 0, 0)),
        key_tree_id(pack_key(t, 0, 0)) == t,
        key_morton(pack_key(t, 0, 0)) == 0,
        key_level(pack_key(t, 0, 0)) == 0,
        pack_key(t, 0, 0) == t * 0x40_0000_0000_0000_0000_0000_0000int,
        cell_end(pack_key(t, 0, 0)) == (t + 1) * 0x40_0000_0000_0000_0000_0000_0000int,
{
    lemma_pack_fields(t, 0, 0);
    assert((0u128 >> 96u128) << 96u128 == 0u128 && 1u128 << 96u128 == 0x1_0000_0000_0000_0000_0000_0000u128) by (bit_vector);
}

/// The finest key of a point and its fields.
pub proof fn lemma_pack_cell_search(t: u32, c: u128)
    requires
        t < TREE_LIMIT,
        c < MORTON_LIMIT,
    ensures
        pack_key(t, c, 32) == t * 0x40_0000_0000_0000_0000_0000_0000int + c * 64 + 32,
        key_tree_id(pack_key(t, c, 32)) == t,
        key_morton(pack_key(t, c, 32)) == c,
        key_level(pack_key(t, c, 32)) == 32,
{
    lemma_pack_fields(t, c, 32);
}

} // verus!
