//! Point location: binary search on the sorted key array.

use vstd::prelude::*;
use crate::forest::{Forest, leaves_well_formed};
use crate::key::{Key, cell_of_key, coord_aligned, child_raw, lemma_children_of_cell, key_tree_id, key_morton, key_level, key_is_cell, cell_end, pack_key, morton_shift, lemma_key_value, lemma_cell_range_nonempty, TREE_LIMIT};
use crate::morton::{bit32, bit128, is_morton_code, lane_bit, encode, morton_of, lemma_morton_of, lemma_lanes_of, lemma_high_bits_eq32, lemma_high_bits_eq128, lemma_morton_code_bound};
use crate::MAX_LEVEL;

verus! {

/// The cell `raw` covers the point of tree `t` whose Morton code is `c`: the finest key of the
/// point lies in the key range `[raw, cell_end(raw))` of the cell.
pub open spec fn covers(raw: u128, t: u32, c: u128) -> bool {
    raw <= pack_key(t, c, 32) && pack_key(t, c, 32) < cell_end(raw)
}

/// The leaf of `ks` that covers the point `(x, y, z)` of tree `t`, if any.
pub open spec fn leaf_at(ks: Seq<u128>, t: u32, x: u32, y: u32, z: u32) -> Option<u128> {
    if exists|i: int| 0 <= i < ks.len() && #[trigger] covers(ks[i], t, morton_of(x, y, z)) {
        Some(ks[choose|i: int| 0 <= i < ks.len() && #[trigger] covers(ks[i], t, morton_of(x, y, z))])
    } else {
        None
    }
}

/// Logical box test: `v` lies in `[corner, corner + 2^(32 - level))`.
pub open spec fn in_span(v: u32, corner: u32, level: u8) -> bool {
    corner <= v && (v as int) < corner as int + (1u64 << ((32 - level) as u64)) as int
}

#[verifier::rlimit(60)]
proof fn lemma_interval_iff_high(m: u128, c: u128, s: u128)
    by (bit_vector)
    requires
        s <= 96,
        (m >> s) << s == m,
        m < 0x1_0000_0000_0000_0000_0000_0000u128,
        c < 0x1_0000_0000_0000_0000_0000_0000u128,
    ensures
        (m <= c && c < m + (1u128 << s)) <==> (c >> s == m >> s),
{
}

proof fn lemma_high_eq_bit(a: u128, b: u128, s: u128, k: u128)
    by (bit_vector)
    requires
        s <= k < 128,
        a >> s == b >> s,
    ensures
        ((a >> k) & 1u128 == 1u128) == ((b >> k) & 1u128 == 1u128),
{
}

proof fn lemma_high_eq_bit32(a: u32, b: u32, s: u32, j: u32)
    by (bit_vector)
    requires
        s <= j < 32,
        a >> s == b >> s,
    ensures
        ((a >> j) & 1u32 == 1u32) == ((b >> j) & 1u32 == 1u32),
{
}

proof fn lemma_low_bit_clear(m: u128, s: u128, k: u128)
    by (bit_vector)
    requires
        k < s <= 96,
        (m >> s) << s == m,
    ensures
        (m >> k) & 1u128 == 0u128,
{
}

proof fn lemma_widen_shift(a: u32, b: u32, s: u32, s64: u64)
    by (bit_vector)
    requires
        s <= 32,
        s64 == s as u64,
        a >> s == b >> s || s == 32,
    ensures
        (a as u64) >> s64 == (b as u64) >> s64,
{
}

proof fn lemma_narrow_shift(a: u32, b: u32, s: u32, s64: u64)
    by (bit_vector)
    requires
        s < 32,
        s64 == s as u64,
        (a as u64) >> s64 == (b as u64) >> s64,
    ensures
        a >> s == b >> s,
{
}

proof fn lemma_span_iff_high(x: u64, cx: u64, s: u64)
    by (bit_vector)
    requires
        s <= 32,
        x < 0x1_0000_0000u64,
        cx < 0x1_0000_0000u64,
        (cx >> s) << s == cx,
    ensures
        (cx <= x && x < cx + (1u64 << s)) <==> (x >> s == cx >> s),
{
}

proof fn lemma_aligned_step(v: u64, cx: u32, s: u64, t: u64, j: u32)
    by (bit_vector)
    requires
        s < 32,
        t == s + 1,
        j as u64 == s,
        v == cx as u64,
        (v >> s) << s == v,
        (cx >> j) & 1u32 == 0u32,
    ensures
        (v >> t) << t == v,
{
}

proof fn lemma_low_zero_aligned(cx: u32, s: u32, s64: u64)
    requires
        s <= 32,
        s64 == s as u64,
        forall|j: u32| j < s ==> #[trigger] ((cx >> j) & 1u32) == 0u32,
    ensures
        ((cx as u64) >> s64) << s64 == cx as u64,
    decreases s,
{
    let v = cx as u64;
    if s == 0 {
        crate::morton::lemma_shift_ends(0, 0, v);
    } else {
        let p = (s - 1) as u32;
        lemma_low_zero_aligned(cx, p, p as u64);
        assert((cx >> p) & 1u32 == 0u32);
        lemma_aligned_step(v, cx, p as u64, s64, p);
    }
}

/// Coordinate `a` of a point agrees with coordinate `a` of a corner on all bits `s..32` exactly
/// when the two lanes of their Morton codes agree on the matching bits.
proof fn lemma_lane_agree(
    m: u128, cx: u32, cy: u32, cz: u32,
    c: u128, x: u32, y: u32, z: u32,
    s: u32,
)
    requires
        s <= 32,
        is_morton_code(m, cx, cy, cz),
        is_morton_code(c, x, y, z),
    ensures
        (forall|k: u128| 3 * s <= k < 128 ==> #[trigger] bit128(c, k) == bit128(m, k)) <==> (
            (forall|j: u32| s <= j < 32 ==> #[trigger] bit32(x, j) == bit32(cx, j))
            && (forall|j: u32| s <= j < 32 ==> #[trigger] bit32(y, j) == bit32(cy, j))
            && (forall|j: u32| s <= j < 32 ==> #[trigger] bit32(z, j) == bit32(cz, j))),
{
    if forall|k: u128| 3 * s <= k < 128 ==> #[trigger] bit128(c, k) == bit128(m, k) {
        assert forall|j: u32| s <= j < 32 implies #[trigger] bit32(x, j) == bit32(cx, j) by {
            let k = (3 * j) as u128;
            assert(bit128(c, k) == bit128(m, k));
            assert(k % 3 == 0 && k / 3 == j);
            assert(bit128(c, k) == (k < 96 && lane_bit(x, y, z, k)));
            assert(bit128(m, k) == (k < 96 && lane_bit(cx, cy, cz, k)));
        }
        assert forall|j: u32| s <= j < 32 implies #[trigger] bit32(y, j) == bit32(cy, j) by {
            let k = (3 * j + 1) as u128;
            assert(bit128(c, k) == bit128(m, k));
            assert(k % 3 == 1 && k / 3 == j);
            assert(bit128(c, k) == (k < 96 && lane_bit(x, y, z, k)));
            assert(bit128(m, k) == (k < 96 && lane_bit(cx, cy, cz, k)));
        }
        assert forall|j: u32| s <= j < 32 implies #[trigger] bit32(z, j) == bit32(cz, j) by {
            let k = (3 * j + 2) as u128;
            assert(bit128(c, k) == bit128(m, k));
            assert(k % 3 == 2 && k / 3 == j);
            assert(bit128(c, k) == (k < 96 && lane_bit(x, y, z, k)));
            assert(bit128(m, k) == (k < 96 && lane_bit(cx, cy, cz, k)));
        }
    }
    if (forall|j: u32| s <= j < 32 ==> #[trigger] bit32(x, j) == bit32(cx, j))
        && (forall|j: u32| s <= j < 32 ==> #[trigger] bit32(y, j) == bit32(cy, j))
        && (forall|j: u32| s <= j < 32 ==> #[trigger] bit32(z, j) == bit32(cz, j)) {
        assert forall|k: u128| 3 * s <= k < 128 implies #[trigger] bit128(c, k) == bit128(m, k) by {
            assert(bit128(c, k) == (k < 96 && lane_bit(x, y, z, k)));
            assert(bit128(m, k) == (k < 96 && lane_bit(cx, cy, cz, k)));
            if k < 96 {
                let j = (k / 3) as u32;
                assert(s <= j < 32);
            }
        }
    }
}

/// One coordinate: its bits `s..32` agree with the corner's exactly when it lies in the span.
proof fn lemma_coord_span(x: u32, cx: u32, s: u32)
    requires
        s <= 32,
        forall|j: u32| j < s ==> !#[trigger] bit32(cx, j),
    ensures
        (forall|j: u32| s <= j < 32 ==> #[trigger] bit32(x, j) == bit32(cx, j)) <==> ((cx as u64)
            <= (x as u64) && (x as u64) < (cx as u64) + (1u64 << (s as u64))),
        ((cx as u64) >> (s as u64)) << (s as u64) == cx as u64,
{
    let s64 = s as u64;
    assert forall|j: u32| j < s implies #[trigger] ((cx >> j) & 1u32) == 0u32 by {
        assert(!bit32(cx, j));
        crate::morton::lemma_low_bit_u32(cx, j);
    }
    lemma_low_zero_aligned(cx, s, s64);
    lemma_span_iff_high(x as u64, cx as u64, s64);
    if forall|j: u32| s <= j < 32 ==> #[trigger] bit32(x, j) == bit32(cx, j) {
        lemma_high_bits_eq32(x, cx, s);
        lemma_widen_shift(x, cx, s, s64);
    }
    if (x as u64) >> s64 == (cx as u64) >> s64 {
        if s < 32 {
            lemma_narrow_shift(x, cx, s, s64);
            assert forall|j: u32| s <= j < 32 implies #[trigger] bit32(x, j) == bit32(cx, j) by {
                lemma_high_eq_bit32(x, cx, s, j);
            }
        }
    }
}

/// Z-order locality: a cell covers a point exactly when the point lies in the cell's logical
/// box, `corner <= p < corner + 2^(32 - level)` on every axis, in the same tree.
pub proof fn lemma_covers_iff_in_box(
    raw: u128,
    cx: u32, cy: u32, cz: u32,
    t: u32, c: u128,
    x: u32, y: u32, z: u32,
)
    requires
        key_is_cell(raw),
        is_morton_code(key_morton(raw), cx, cy, cz),
        t < TREE_LIMIT,
        is_morton_code(c, x, y, z),
    ensures
        covers(raw, t, c) <==> (key_tree_id(raw) == t
            && in_span(x, cx, key_level(raw))
            && in_span(y, cy, key_level(raw))
            && in_span(z, cz, key_level(raw))),
        coord_aligned(cx, key_level(raw)),
        coord_aligned(cy, key_level(raw)),
        coord_aligned(cz, key_level(raw)),
{
    let m = key_morton(raw);
    let l = key_level(raw);
    let s = (32 - l) as u32;
    let big_s = morton_shift(l);
    lemma_key_value(raw);
    lemma_morton_code_bound(c, x, y, z);
    lemma_cell_range_nonempty(raw);
    crate::key::lemma_pack_cell_search(t, c);
    // Covering is the Morton interval of the cell, within the same tree.
    assert(covers(raw, t, c) <==> (key_tree_id(raw) == t && m <= c && c < m + (1u128 << big_s)));
    lemma_interval_iff_high(m, c, big_s);
    // The interval is agreement of the high bits.
    if c >> big_s == m >> big_s {
        assert forall|k: u128| 3 * s <= k < 128 implies #[trigger] bit128(c, k) == bit128(m, k) by {
            lemma_high_eq_bit(c, m, big_s, k);
        }
    }
    if forall|k: u128| 3 * s <= k < 128 ==> #[trigger] bit128(c, k) == bit128(m, k) {
        lemma_high_bits_eq128(c, m, big_s);
    }
    lemma_lane_agree(m, cx, cy, cz, c, x, y, z, s);
    // The corner is aligned to the cell size on every axis.
    assert forall|j: u32| j < s implies !#[trigger] bit32(cx, j) by {
        let k0 = (3 * j) as u128;
        lemma_low_bit_clear(m, big_s, k0);
        assert(bit128(m, k0) == (k0 < 96 && lane_bit(cx, cy, cz, k0)));
        assert(k0 % 3 == 0 && k0 / 3 == j);
    }
    assert forall|j: u32| j < s implies !#[trigger] bit32(cy, j) by {
        let k1 = (3 * j + 1) as u128;
        lemma_low_bit_clear(m, big_s, k1);
        assert(bit128(m, k1) == (k1 < 96 && lane_bit(cx, cy, cz, k1)));
        assert(k1 % 3 == 1 && k1 / 3 == j);
    }
    assert forall|j: u32| j < s implies !#[trigger] bit32(cz, j) by {
        let k2 = (3 * j + 2) as u128;
        lemma_low_bit_clear(m, big_s, k2);
        assert(bit128(m, k2) == (k2 < 96 && lane_bit(cx, cy, cz, k2)));
        assert(k2 % 3 == 2 && k2 / 3 == j);
    }
    lemma_coord_span(x, cx, s);
    lemma_coord_span(y, cy, s);
    lemma_coord_span(z, cz, s);
}

/// A cell covers a point of tree `t` exactly when the point lies in the cell's box in that tree;
/// the corner of the box is aligned to the cell's edge on every axis.
pub proof fn lemma_cell_box(raw: u128, t: u32, x: u32, y: u32, z: u32)
    requires
        key_is_cell(raw),
        t < TREE_LIMIT,
    ensures
        covers(raw, t, morton_of(x, y, z)) <==> (key_tree_id(raw) == t
            && in_span(x, cell_of_key(raw).x, key_level(raw))
            && in_span(y, cell_of_key(raw).y, key_level(raw))
            && in_span(z, cell_of_key(raw).z, key_level(raw))),
        coord_aligned(cell_of_key(raw).x, key_level(raw)),
        coord_aligned(cell_of_key(raw).y, key_level(raw)),
        coord_aligned(cell_of_key(raw).z, key_level(raw)),
{
    let c = cell_of_key(raw);
    lemma_key_value(raw);
    crate::morton::lemma_lanes_of(key_morton(raw));
    lemma_morton_of(x, y, z);
    lemma_covers_iff_in_box(raw, c.x, c.y, c.z, t, morton_of(x, y, z), x, y, z);
}

/// Strictly increasing packed values.
pub open spec fn strictly_sorted(ks: Seq<u128>) -> bool {
    forall|i: int, j: int| 0 <= i < j < ks.len() ==> #[trigger] ks[i] < #[trigger] ks[j]
}

/// Well-formed leaves are strictly increasing.
pub proof fn lemma_leaves_strictly_sorted(ks: Seq<u128>)
    requires
        leaves_well_formed(ks),
    ensures
        strictly_sorted(ks),
{
    assert forall|i: int, j: int| 0 <= i < j < ks.len() implies #[trigger] ks[i] < #[trigger] ks[j] by {
        lemma_cell_range_nonempty(ks[i]);
    }
}

/// Binary search for a packed value in a strictly increasing key slice: `Ok(i)` when found at
/// `i`, otherwise `Err(i)` with `i` the insertion point.
pub(crate) fn search_keys(keys: &[Key], target: u128) -> (r: Result<usize, usize>)
    requires
        strictly_sorted(keys@.map_values(|k: Key| k@)),
    ensures
        match r {
            Ok(i) => i < keys@.len() && keys@[i as int]@ == target,
            Err(i) => i <= keys@.len()
                && (forall|j: int| 0 <= j < i ==> (#[trigger] keys@[j])@ < target)
                && (forall|j: int| i <= j < keys@.len() ==> (#[trigger] keys@[j])@ > target),
        },
{
    let ghost ks = keys@.map_values(|k: Key| k@);
    let mut lo: usize = 0;
    let mut hi: usize = keys.len();
    while lo < hi
        invariant
            ks == keys@.map_values(|k: Key| k@),
            strictly_sorted(ks),
            lo <= hi <= keys@.len(),
            forall|j: int| 0 <= j < lo ==> (#[trigger] keys@[j])@ < target,
            forall|j: int| hi <= j < keys@.len() ==> (#[trigger] keys@[j])@ > target,
        decreases hi - lo,
    {
        let mid = lo + (hi - lo) / 2;
        let v = keys[mid].packed();
        if v == target {
            return Ok(mid);
        } else if v < target {
            assert forall|j: int| 0 <= j < mid + 1 implies (#[trigger] keys@[j])@ < target by {
                if j < mid {
                    assert(ks[j] < ks[mid as int]);
                }
            }
            lo = mid + 1;
        } else {
            assert forall|j: int| mid <= j < keys@.len() implies (#[trigger] keys@[j])@ > target by {
                if j > mid {
                    assert(ks[mid as int] < ks[j]);
                }
            }
            hi = mid;
        }
    }
    Err(lo)
}

/// At most one leaf covers a point.
pub proof fn lemma_unique_cover(ks: Seq<u128>, t: u32, c: u128, i: int, j: int)
    requires
        leaves_well_formed(ks),
        0 <= i < ks.len(),
        0 <= j < ks.len(),
        covers(ks[i], t, c),
        covers(ks[j], t, c),
    ensures
        i == j,
{
    if i < j {
        assert(cell_end(ks[i]) <= ks[j]);
    } else if j < i {
        assert(cell_end(ks[j]) <= ks[i]);
    }
}

/// The leaf at a point is the covering leaf, when one covers it.
pub proof fn lemma_leaf_at_is(ks: Seq<u128>, t: u32, x: u32, y: u32, z: u32, i: int)
    requires
        leaves_well_formed(ks),
        0 <= i < ks.len(),
        covers(ks[i], t, morton_of(x, y, z)),
    ensures
        leaf_at(ks, t, x, y, z) == Some(ks[i]),
{
    let j = choose|j: int| 0 <= j < ks.len() && #[trigger] covers(ks[j], t, morton_of(x, y, z));
    lemma_unique_cover(ks, t, morton_of(x, y, z), i, j);
}

/// Without a covering leaf there is no leaf at the point.
pub proof fn lemma_leaf_at_none(ks: Seq<u128>, t: u32, x: u32, y: u32, z: u32)
    requires
        forall|i: int| 0 <= i < ks.len() ==> !#[trigger] covers(ks[i], t, morton_of(x, y, z)),
    ensures
        leaf_at(ks, t, x, y, z) is None,
{
}

impl Forest {
    /// Finds the leaf that contains the logical point `(tree_id, x, y, z)` in `O(log N)`.
    ///
    /// Uses a synthetic key at [`MAX_LEVEL`] as the search needle; its predecessor in key order
    /// is the only leaf that can cover the point, which is then verified with an axis-aligned
    /// box test (sparse forests may have gaps).
    pub fn find_cell_containing(&self, tree_id: u32, x: u32, y: u32, z: u32) -> (r: Option<Key>)
        requires
            tree_id < TREE_LIMIT,
        ensures
            match r {
                Some(k) => leaf_at(self.key_seq(), tree_id, x, y, z) == Some(k@),
                None => leaf_at(self.key_seq(), tree_id, x, y, z) is None,
            },
            r matches Some(k) ==> self.key_seq().contains(k@) && covers(k@, tree_id, morton_of(x, y, z)),
    {
        let keys = self.keys();
        let ghost ks = self.key_seq();
        proof {
            lemma_leaves_strictly_sorted(ks);
        }
        let morton = encode(x, y, z);
        proof {
            lemma_morton_code_bound(morton, x, y, z);
            crate::key::lemma_pack_cell_search(tree_id, morton);
        }
        let search_key = Key::new(tree_id, morton, MAX_LEVEL);
        let ghost target = search_key@;
        let ghost c = morton;
        assert(c == morton_of(x, y, z));
        assert(keys@.map_values(|k: Key| k@) == ks);
        match search_keys(keys, search_key.packed()) {
            Ok(idx) => {
                proof {
                    assert(ks[idx as int] == target);
                    lemma_cell_range_nonempty(ks[idx as int]);
                    lemma_leaf_at_is(ks, tree_id, x, y, z, idx as int);
                }
                Some(keys[idx])
            },
            Err(idx) => {
                assert forall|i: int| 0 <= i < ks.len() && i >= idx implies !#[trigger] covers(ks[i], tree_id, morton) by {
                    assert(keys@[i]@ > target);
                }
                if idx == 0 {
                    proof { lemma_leaf_at_none(ks, tree_id, x, y, z); }
                    return None;
                }
                let candidate = keys[idx - 1];
                let ghost cand = ks[idx - 1];
                assert(candidate@ == cand);
                assert forall|i: int| 0 <= i < idx - 1 implies !#[trigger] covers(ks[i], tree_id, morton) by {
                    assert(cell_end(ks[i]) <= ks[idx - 1]);
                    assert(keys@[idx - 1]@ < target);
                }
                if candidate.tree_id() != tree_id {
                    proof {
                        lemma_key_value(cand);
                        lemma_cell_range_nonempty(cand);
                        assert(!covers(ks[idx - 1], tree_id, morton));
                        lemma_leaf_at_none(ks, tree_id, x, y, z);
                    }
                    return None;
                }
                let logical = candidate.to_logical();
                let size = logical.size();
                let cx = logical.x as u64;
                let cy = logical.y as u64;
                let cz = logical.z as u64;
                let px = x as u64;
                let py = y as u64;
                let pz = z as u64;
                proof {
                    lemma_key_value(cand);
                    lemma_lanes_of(key_morton(cand));
                    lemma_morton_of(x, y, z);
                    lemma_covers_iff_in_box(cand, logical.x, logical.y, logical.z, tree_id, morton, x, y, z);
                    assert(size as int == (1u64 << ((32 - logical.level) as u64)) as int);
                }
                if px >= cx && px < cx + size && py >= cy && py < cy + size && pz >= cz && pz < cz + size {
                    proof { lemma_leaf_at_is(ks, tree_id, x, y, z, idx - 1); }
                    Some(candidate)
                } else {
                    proof {
                        assert(!covers(ks[idx - 1], tree_id, morton));
                        lemma_leaf_at_none(ks, tree_id, x, y, z);
                    }
                    None
                }
            },
        }
    }
}

/// The eight children of a cell tile it: a point is covered by the cell exactly when it is
/// covered by one of the children.
#[verifier::spinoff_prover]
#[verifier::rlimit(40)]
pub proof fn lemma_children_cover(raw: u128, t: u32, c: u128)
    requires
        key_is_cell(raw),
        key_level(raw) < 32,
        t < TREE_LIMIT,
        c < 0x1_0000_0000_0000_0000_0000_0000u128,
    ensures
        covers(raw, t, c) <==> exists|j: u128| j < 8 && #[trigger] covers(child_raw(raw, j), t, c),
{
    lemma_children_of_cell(raw);
    lemma_key_value(raw);
    crate::key::lemma_pack_cell_search(t, c);
    let x = (1u128 << morton_shift((key_level(raw) + 1) as u8)) as int;
    let b = key_tree_id(raw) as int * 0x1_0000_0000_0000_0000_0000_0000int + key_morton(raw) as int;
    let sv = t as int * 0x1_0000_0000_0000_0000_0000_0000int + c as int;
    let l = key_level(raw) as int;
    assert(raw == b * 64 + l);
    assert(pack_key(t, c, 32) == sv * 64 + 32);
    assert(cell_end(raw) == (b + 8 * x) * 64);
    assert forall|j: u128| j < 8 implies (#[trigger] covers(child_raw(raw, j), t, c) <==> (b + j * x <= sv && sv < b + (j + 1) * x)) by {
        assert(child_raw(raw, j) == (b + j * x) * 64 + l + 1);
        assert(cell_end(child_raw(raw, j)) == (b + (j + 1) * x) * 64);
    }
    if covers(raw, t, c) {
        assert(b <= sv && sv < b + 8 * x);
        let j = (sv - b) / x;
        vstd::arithmetic::div_mod::lemma_fundamental_div_mod(sv - b, x);
        assert(0 <= (sv - b) % x < x) by {
            vstd::arithmetic::div_mod::lemma_mod_bound(sv - b, x);
        }
        assert(0 <= j < 8) by (nonlinear_arith)
            requires
                sv - b == x * j + (sv - b) % x,
                0 <= (sv - b) % x < x,
                0 <= sv - b < 8 * x,
                x >= 1;
        assert(b + j * x <= sv && sv < b + (j + 1) * x) by (nonlinear_arith)
            requires
                sv - b == x * j + (sv - b) % x,
                0 <= (sv - b) % x < x;
        assert(covers(child_raw(raw, j as u128), t, c));
    }
    if exists|j: u128| j < 8 && #[trigger] covers(child_raw(raw, j), t, c) {
        let j = choose|j: u128| j < 8 && #[trigger] covers(child_raw(raw, j), t, c);
        assert(b + j * x <= sv && sv < b + (j + 1) * x);
        assert(b <= sv && sv < b + 8 * x) by (nonlinear_arith)
            requires
                b + j * x <= sv,
                sv < b + (j + 1) * x,
                0 <= j < 8,
                x >= 1;
    }
}

} // verus!
