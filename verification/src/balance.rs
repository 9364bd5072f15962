//! 2:1 balance (26-neighbour stencil): refine coarse cells until adjacent level gaps are ≤ 1.

use vstd::prelude::*;
use crate::forest::{Forest, leaves_well_formed, all_cells};
use crate::key::{Key, LogicalCell, key_level, key_is_cell, cell_of_key, coord_aligned, lemma_edge_range, TREE_LIMIT};
use crate::neighbour::{grid_addressable, leaf_at_point, cell_size, resolve_spec, tree_extent, lemma_resolved_tree_in_grid, nx_ny_fits, lemma_grid_fits};
use crate::query::{leaf_at, covers, in_span, lemma_cell_box, lemma_leaf_at_is, strictly_sorted, lemma_leaves_strictly_sorted, search_keys};
use vstd::arithmetic::power2::pow2;
use crate::refine::{refine_seq, potential, lemma_refine_potential, lemma_refine_coarsen_keep_region};

verus! {

/// Probe coordinate `i` (0, 1, 2) of a cell of edge `size`: just below it, at its middle, just
/// above it.
pub open spec fn probe_coord(size: int, i: int) -> int {
    if i == 0 {
        -1
    } else if i == 1 {
        size / 2
    } else {
        size
    }
}

/// The 26 probe offsets around a cell of edge `size`: `{-1, size/2, size}` per axis, without the
/// interior sample, with `dz` varying fastest.
pub open spec fn probe_offsets(size: int) -> Seq<(int, int, int)> {
    Seq::new(26, |n: int| {
        let k = if n < 13 { n } else { n + 1 };
        (probe_coord(size, k / 9), probe_coord(size, (k / 3) % 3), probe_coord(size, k % 3))
    })
}

/// The leaf at the probe point `corner + d` of the cell `raw`, if any.
pub open spec fn probe_leaf(ks: Seq<u128>, g: [u32; 3], raw: u128, d: (int, int, int)) -> Option<u128> {
    let cell = cell_of_key(raw);
    leaf_at_point(ks, g, cell.tree_id, (cell.x + d.0, cell.y + d.1, cell.z + d.2))
}

/// The probed leaf when it is at least two levels coarser than the cell `raw`.
pub open spec fn coarse_probe(ks: Seq<u128>, g: [u32; 3], raw: u128, d: (int, int, int)) -> Option<u128> {
    match probe_leaf(ks, g, raw, d) {
        Some(n) => if key_level(raw) >= key_level(n) + 2 { Some(n) } else { None },
        None => None,
    }
}

/// The present values, in order.
pub open spec fn somes(s: Seq<Option<u128>>) -> Seq<u128>
    decreases s.len(),
{
    if s.len() == 0 {
        Seq::empty()
    } else {
        match s.last() {
            Some(k) => somes(s.drop_last()).push(k),
            None => somes(s.drop_last()),
        }
    }
}

/// The leaves around the cell `raw`, in probe order, that are at least two levels coarser than
/// it (none for cells above level 2).
pub open spec fn coarse_neighbours(ks: Seq<u128>, g: [u32; 3], raw: u128) -> Seq<u128> {
    if key_level(raw) < 2 {
        Seq::empty()
    } else {
        let size = cell_size(key_level(raw));
        somes(Seq::new(26, |i: int| coarse_probe(ks, g, raw, probe_offsets(size)[i])))
    }
}

/// 2:1 balance: no leaf has a 26-probe neighbour two or more levels coarser.
pub open spec fn balanced(ks: Seq<u128>, g: [u32; 3]) -> bool {
    forall|i: int| 0 <= i < ks.len() ==> #[trigger] coarse_neighbours(ks, g, ks[i]).len() == 0
}

/// Leaf `q` is seen at least two levels coarser from one of the first `i` leaves.
pub open spec fn flagged_by(ks: Seq<u128>, g: [u32; 3], q: int, i: int) -> bool {
    exists|j: int| 0 <= j < i && #[trigger] coarse_neighbours(ks, g, ks[j]).contains(ks[q])
}

/// Refinement flags of one balancing round: every leaf that some leaf sees at least two levels
/// coarser.
pub open spec fn balance_flags(ks: Seq<u128>, g: [u32; 3]) -> Seq<bool> {
    Seq::new(ks.len(), |q: int| flagged_by(ks, g, q, ks.len() as int))
}

/// The leaves after repeating balancing rounds until no leaf is flagged (a list that is not made
/// of cells is returned as it is).
pub open spec fn balance_fix(ks: Seq<u128>, g: [u32; 3]) -> Seq<u128>
    decreases potential(ks),
    via balance_fix_decreases
{
    if !all_cells(ks) || balanced(ks, g) {
        ks
    } else {
        balance_fix(refine_seq(ks, balance_flags(ks, g)), g)
    }
}

#[via_fn]
proof fn balance_fix_decreases(ks: Seq<u128>, g: [u32; 3]) {
    if all_cells(ks) && !balanced(ks, g) {
        let i = choose|i: int| 0 <= i < ks.len() && #[trigger] coarse_neighbours(ks, g, ks[i]).len() != 0;
        lemma_unbalanced_flags(ks, g, i);
        lemma_refine_potential(ks, balance_flags(ks, g));
    }
}

proof fn lemma_balance_fix_step(ks: Seq<u128>, g: [u32; 3])
    requires
        all_cells(ks),
        !balanced(ks, g),
    ensures
        balance_fix(ks, g) == balance_fix(refine_seq(ks, balance_flags(ks, g)), g),
{
}

/// An unbalanced leaf makes some flagged leaf refinable.
proof fn lemma_unbalanced_flags(ks: Seq<u128>, g: [u32; 3], i: int)
    requires
        all_cells(ks),
        0 <= i < ks.len(),
        coarse_neighbours(ks, g, ks[i]).len() != 0,
    ensures
        exists|q: int| 0 <= q < ks.len() && #[trigger] balance_flags(ks, g)[q] && key_level(ks[q]) < 32,
{
    let cn = coarse_neighbours(ks, g, ks[i]);
    assert(key_is_cell(ks[i]));
    lemma_coarse_neighbours_are_coarse_leaves(ks, g, ks[i]);
    assert(ks.contains(cn[0]));
    let q = choose|q: int| 0 <= q < ks.len() && ks[q] == cn[0];
    assert(cn.contains(ks[q]));
    assert(flagged_by(ks, g, q, ks.len() as int));
    assert(balance_flags(ks, g)[q]);
}

/// Iterates the 26 probe offsets around a cell of edge length `size` (logical units).
///
/// Uses `{-1, size/2, size}` per axis and skips the interior sample `(size/2, size/2, size/2)`.
/// Order matches nested `for dx { for dy { for dz { ... }}}` with `dz` innermost.
fn iter_26_probe_triples(size: i64) -> (r: Vec<(i64, i64, i64)>)
    requires
        1 <= size <= 0x1_0000_0000,
    ensures
        r@.len() == 26,
        forall|n: int| 0 <= n < 26 ==> (#[trigger] r@[n]).0 as int == probe_offsets(size as int)[n].0
            && r@[n].1 as int == probe_offsets(size as int)[n].1 && r@[n].2 as int == probe_offsets(size as int)[n].2,
{
    let half = size / 2;
    let o: [i64; 3] = [-1i64, half, size];
    let mut out: Vec<(i64, i64, i64)> = Vec::with_capacity(26);
    let mut k: usize = 0;
    let ghost offs = probe_offsets(size as int);
    while k < 27
        invariant
            k <= 27,
            half == size / 2,
            1 <= size <= 0x1_0000_0000,
            o@ == seq![-1i64, half, size],
            offs == probe_offsets(size as int),
            out@.len() == (if k <= 13 { k as int } else { k - 1 }),
            forall|n: int| 0 <= n < out@.len() ==> (#[trigger] out@[n]).0 as int == offs[n].0
                && out@[n].1 as int == offs[n].1 && out@[n].2 as int == offs[n].2,
        decreases 27 - k,
    {
        let dx = o[k / 9];
        let dy = o[(k / 3) % 3];
        let dz = o[k % 3];
        if dx != half || dy != half || dz != half {
            let ghost n = out@.len() as int;
            proof {
                assert(k != 13);
                assert(n == (if k < 13 { k as int } else { k - 1 }));
                assert(dx as int == probe_coord(size as int, (k / 9) as int));
                assert(dy as int == probe_coord(size as int, ((k / 3) % 3) as int));
                assert(dz as int == probe_coord(size as int, (k % 3) as int));
            }
            out.push((dx, dy, dz));
        } else {
            assert(k == 13);
        }
        k = k + 1;
    }
    out
}

proof fn lemma_probe_coord_range(size: int, i: int)
    requires
        1 <= size,
    ensures
        -1 <= probe_coord(size, i) <= size,
{
}

proof fn lemma_somes_push(s: Seq<Option<u128>>, v: Option<u128>)
    ensures
        somes(s.push(v)) == (match v {
            Some(k) => somes(s).push(k),
            None => somes(s),
        }),
{
    assert(s.push(v).drop_last() =~= s);
    assert(s.push(v).last() == v);
}

/// Every coarse neighbour is a leaf at least two levels coarser than the cell.
pub proof fn lemma_coarse_neighbours_are_coarse_leaves(ks: Seq<u128>, g: [u32; 3], raw: u128)
    requires
        key_level(raw) <= 32,
    ensures
        forall|j: int| 0 <= j < coarse_neighbours(ks, g, raw).len() ==> ks.contains(#[trigger] coarse_neighbours(ks, g, raw)[j])
            && key_level(raw) >= key_level(coarse_neighbours(ks, g, raw)[j]) + 2,
{
    if key_level(raw) >= 2 {
        let size = cell_size(key_level(raw));
        let s = Seq::new(26, |i: int| coarse_probe(ks, g, raw, probe_offsets(size)[i]));
        lemma_somes_from(s, ks, raw);
    }
}

proof fn lemma_somes_from(s: Seq<Option<u128>>, ks: Seq<u128>, raw: u128)
    requires
        forall|i: int| 0 <= i < s.len() ==> (#[trigger] s[i] matches Some(k) ==> ks.contains(k) && key_level(raw) >= key_level(k) + 2),
    ensures
        forall|j: int| 0 <= j < somes(s).len() ==> ks.contains(#[trigger] somes(s)[j]) && key_level(raw) >= key_level(somes(s)[j]) + 2,
    decreases s.len(),
{
    if s.len() > 0 {
        assert forall|i: int| 0 <= i < s.drop_last().len() implies (#[trigger] s.drop_last()[i] matches Some(k) ==> ks.contains(k) && key_level(raw) >= key_level(k) + 2) by {
            assert(s.drop_last()[i] == s[i]);
        }
        lemma_somes_from(s.drop_last(), ks, raw);
        assert(s.last() == s[s.len() - 1]);
        let prev = somes(s.drop_last());
        match s.last() {
            Some(k) => {
                assert(somes(s) == prev.push(k));
                assert forall|j: int| 0 <= j < somes(s).len() implies ks.contains(#[trigger] somes(s)[j]) && key_level(raw) >= key_level(somes(s)[j]) + 2 by {
                    if j < prev.len() {
                        assert(somes(s)[j] == prev[j]);
                    } else {
                        assert(somes(s)[j] == k);
                    }
                }
            },
            None => {
                assert(somes(s) == prev);
            },
        }
    }
}

proof fn lemma_coarse_probe_leaf(ks: Seq<u128>, g: [u32; 3], raw: u128, d: (int, int, int))
    ensures
        coarse_probe(ks, g, raw, d) matches Some(k) ==> ks.contains(k) && key_level(raw) >= key_level(k) + 2,
{
    let cell = cell_of_key(raw);
    match resolve_spec(g, cell.tree_id, cell.x + d.0, cell.y + d.1, cell.z + d.2) {
        Some((t, x, y, z)) => {
            if leaf_at(ks, t, x, y, z) is Some {
                let c = crate::morton::morton_of(x, y, z);
                let w = choose|w: int| 0 <= w < ks.len() && #[trigger] covers(ks[w], t, c);
                assert(ks[w] == ks[w]);
            }
        },
        None => {},
    }
}

/// Offset `d` on one axis lies on side `e` of a cell of edge `s` and touches it: just below the
/// cell (`e < 0`), across its span (`e == 0`) or just above it (`e > 0`).
pub open spec fn touching_side(d: int, s: int, e: int) -> bool {
    if e < 0 {
        d < 0 <= d + 1
    } else if e == 0 {
        0 <= d < s
    } else {
        d - 1 < s <= d
    }
}

/// Offset `d` lies in the neighbour region `e` of a cell of edge `s`, one side per axis.
pub open spec fn in_region(d: (int, int, int), s: int, e: (int, int, int)) -> bool {
    touching_side(d.0, s, e.0) && touching_side(d.1, s, e.1) && touching_side(d.2, s, e.2)
}

/// `e` names one of the 26 regions around a cell: each component is -1, 0 or 1, not all 0.
pub open spec fn is_region(e: (int, int, int)) -> bool {
    &&& -1 <= e.0 <= 1
    &&& -1 <= e.1 <= 1
    &&& -1 <= e.2 <= 1
    &&& e != (0int, 0int, 0int)
}

/// Some probe offset of a cell of edge `s` lies in the neighbour region `e`.
pub open spec fn region_probed(s: int, e: (int, int, int)) -> bool {
    exists|n: int| 0 <= n < 26 && in_region(probe_offsets(s)[n], s, e)
}

/// The 26 probes of a cell look across every face, edge and corner, on the minus side as on the
/// plus side: each of the 26 regions around the cell holds a probe that touches the cell, and
/// every probe lies outside the cell within one unit of it.
pub proof fn lemma_probes_cover_regions(s: int)
    requires
        s >= 1,
    ensures
        forall|e: (int, int, int)| is_region(e) ==> #[trigger] region_probed(s, e),
        forall|n: int| 0 <= n < 26 ==> {
            let d = #[trigger] probe_offsets(s)[n];
            &&& -1 <= d.0 <= s && -1 <= d.1 <= s && -1 <= d.2 <= s
            &&& !(0 <= d.0 < s && 0 <= d.1 < s && 0 <= d.2 < s)
        },
{
    assert forall|e: (int, int, int)| is_region(e) implies #[trigger] region_probed(s, e) by {
        let k = (e.0 + 1) * 9 + (e.1 + 1) * 3 + (e.2 + 1);
        let n = if k < 13 { k } else { k - 1 };
        assert(k != 13);
        assert(k / 9 == e.0 + 1 && (k / 3) % 3 == e.1 + 1 && k % 3 == e.2 + 1);
        assert(in_region(probe_offsets(s)[n], s, e));
    }
    assert forall|n: int| 0 <= n < 26 implies {
        let d = #[trigger] probe_offsets(s)[n];
        &&& -1 <= d.0 <= s && -1 <= d.1 <= s && -1 <= d.2 <= s
        &&& !(0 <= d.0 < s && 0 <= d.1 < s && 0 <= d.2 < s)
    } by {
        let k = if n < 13 { n } else { n + 1 };
        assert(k != 13);
        assert(k == (k / 9) * 9 + ((k / 3) % 3) * 3 + k % 3);
    }
}

/// A sequence with no present values holds only `None`.
proof fn lemma_somes_empty(v: Seq<Option<u128>>)
    requires
        somes(v).len() == 0,
    ensures
        forall|i: int| 0 <= i < v.len() ==> #[trigger] v[i] is None,
    decreases v.len(),
{
    if v.len() > 0 {
        match v.last() {
            Some(k) => {
                assert(somes(v) == somes(v.drop_last()).push(k));
            },
            None => {
                lemma_somes_empty(v.drop_last());
                assert forall|i: int| 0 <= i < v.len() implies #[trigger] v[i] is None by {
                    if i < v.len() - 1 {
                        assert(v[i] == v.drop_last()[i]);
                    }
                }
            },
        }
    }
}

/// In a balanced forest, every leaf from level 2 on looks into each of the 26 regions around it
/// through a probe that touches it, and the leaf found there, if any, is at most one level
/// coarser.
pub proof fn lemma_balanced_regions(ks: Seq<u128>, g: [u32; 3], i: int, e: (int, int, int))
    requires
        balanced(ks, g),
        0 <= i < ks.len(),
        key_is_cell(ks[i]),
        key_level(ks[i]) >= 2,
        is_region(e),
    ensures
        exists|n: int| 0 <= n < 26 && {
            let d = #[trigger] probe_offsets(cell_size(key_level(ks[i])))[n];
            &&& in_region(d, cell_size(key_level(ks[i])), e)
            &&& (probe_leaf(ks, g, ks[i], d) matches Some(b) ==> key_level(b) + 1 >= key_level(ks[i]))
        },
{
    let raw = ks[i];
    let s = cell_size(key_level(raw));
    crate::key::lemma_edge_range(key_level(raw));
    lemma_probes_cover_regions(s);
    assert(region_probed(s, e));
    let n = choose|n: int| 0 <= n < 26 && in_region(probe_offsets(s)[n], s, e);
    assert(coarse_neighbours(ks, g, ks[i]).len() == 0);
    let v = Seq::new(26, |m: int| coarse_probe(ks, g, raw, probe_offsets(s)[m]));
    lemma_somes_empty(v);
    assert(v[n] is None);
}

/// An aligned corner is a whole multiple of the cell edge, which is `2^(32 - level)`.
proof fn lemma_aligned_multiple(v: u32, l: u8)
    requires
        l <= 32,
        coord_aligned(v, l),
    ensures
        cell_size(l) == pow2((32 - l) as nat),
        v == (v as int / cell_size(l)) * cell_size(l),
{
    let k = (32 - l) as u64;
    vstd::bits::lemma_u64_pow2_no_overflow(k as nat);
    vstd::bits::lemma_u64_shl_is_mul(1u64, k);
    let w = v as u64;
    let p = pow2(k as nat) as int;
    vstd::bits::lemma_u64_shr_is_div(w, k);
    vstd::arithmetic::div_mod::lemma_fundamental_div_mod(w as int, p);
    vstd::arithmetic::div_mod::lemma_mod_bound(w as int, p);
    assert((w as int / p) * p <= w) by (nonlinear_arith)
        requires w as int == p * (w as int / p) + w as int % p, 0 <= w as int % p;
    vstd::bits::lemma_u64_shl_is_mul(w >> k, k);
}

/// The edge of a coarser cell is a whole number of edges of a finer one.
proof fn lemma_edges_nest(la: u8, lb: u8)
    requires
        lb <= la <= 32,
    ensures
        cell_size(lb) == cell_size(la) * pow2((la - lb) as nat),
        pow2((la - lb) as nat) >= 1,
        cell_size(la) * pow2(la as nat) == tree_extent(),
{
    let ka = (32 - la) as u64;
    let kb = (32 - lb) as u64;
    vstd::bits::lemma_u64_pow2_no_overflow(ka as nat);
    vstd::bits::lemma_u64_pow2_no_overflow(kb as nat);
    vstd::bits::lemma_u64_shl_is_mul(1u64, ka);
    vstd::bits::lemma_u64_shl_is_mul(1u64, kb);
    vstd::arithmetic::power2::lemma_pow2_adds(ka as nat, (la - lb) as nat);
    vstd::arithmetic::power2::lemma_pow2_adds(ka as nat, la as nat);
    vstd::arithmetic::power2::lemma_pow2_pos((la - lb) as nat);
    vstd::arithmetic::power2::lemma2_to64();
}

/// An aligned span that shares a point with a span whose corner and edge are whole multiples of
/// its edge lies inside it.
proof fn lemma_span_nested(sa: int, ka: int, kb: int, m: int, p: int, q: int)
    requires
        sa >= 1,
        m >= 1,
        sa * ka <= p < sa * ka + sa,
        sa * kb <= p < sa * kb + sa * m,
        sa * ka <= q < sa * ka + sa,
    ensures
        sa * kb <= q < sa * kb + sa * m,
{
    assert(kb <= ka) by (nonlinear_arith)
        requires sa >= 1, sa * kb <= p, p < sa * ka + sa;
    assert(ka + 1 <= kb + m) by (nonlinear_arith)
        requires sa >= 1, sa * ka <= p, p < sa * kb + sa * m;
    assert(sa * kb <= sa * ka) by (nonlinear_arith)
        requires sa >= 1, kb <= ka;
    assert(sa * ka + sa <= sa * kb + sa * m) by (nonlinear_arith)
        requires sa >= 1, ka + 1 <= kb + m;
}

/// An aligned cell lies inside its tree: its far side is at most the tree's extent.
proof fn lemma_cell_in_tree(v: u32, l: u8)
    requires
        l <= 32,
        coord_aligned(v, l),
    ensures
        v as int + cell_size(l) <= tree_extent(),
{
    lemma_aligned_multiple(v, l);
    lemma_edges_nest(l, l);
    let sa = cell_size(l);
    let k = v as int / sa;
    let e = pow2(l as nat) as int;
    assert(k + 1 <= e) by (nonlinear_arith)
        requires sa >= 1, v as int == k * sa, v < sa * e;
    assert(k * sa + sa <= sa * e) by (nonlinear_arith)
        requires sa >= 1, k + 1 <= e;
}

/// In a balanced forest no leaf touches a leaf two or more levels coarser: a leaf found at a
/// point just outside a leaf `ks[i]`, across any face, edge or corner and on either side, is at
/// most one level coarser. As every leaf is bound so, two touching leaves differ by at most one
/// level.
pub proof fn lemma_balanced_touching_levels(ks: Seq<u128>, g: [u32; 3], i: int, e: (int, int, int), d: (int, int, int), b: u128)
    requires
        leaves_well_formed(ks),
        grid_addressable(g),
        balanced(ks, g),
        0 <= i < ks.len(),
        is_region(e),
        in_region(d, cell_size(key_level(ks[i])), e),
        probe_leaf(ks, g, ks[i], d) == Some(b),
    ensures
        key_level(b) + 1 >= key_level(ks[i]),
{
    let raw = ks[i];
    let la = key_level(raw);
    if key_level(b) + 2 <= la {
        let cell = cell_of_key(raw);
        let sa = cell_size(la);
        assert(key_is_cell(raw));
        lemma_edge_range(la);
        lemma_probes_cover_regions(sa);
        assert(region_probed(sa, e));
        let n = choose|n: int| 0 <= n < 26 && in_region(probe_offsets(sa)[n], sa, e);
        let dn = probe_offsets(sa)[n];
        let (px, py, pz) = (cell.x + d.0, cell.y + d.1, cell.z + d.2);
        let (qx, qy, qz) = (cell.x + dn.0, cell.y + dn.1, cell.z + dn.2);
        assert(resolve_spec(g, cell.tree_id, px, py, pz) is Some);
        let (t, x, y, z) = resolve_spec(g, cell.tree_id, px, py, pz)->0;
        lemma_resolved_tree_in_grid(g, cell.tree_id, px, py, pz);
        assert(leaf_at(ks, t, x, y, z) == Some(b));
        let c = crate::morton::morton_of(x, y, z);
        let w = choose|w: int| 0 <= w < ks.len() && #[trigger] covers(ks[w], t, c);
        assert(b == ks[w]);
        assert(key_is_cell(b));
        let lb = key_level(b);
        let bc = cell_of_key(b);
        let sb = cell_size(lb);
        lemma_cell_box(raw, t, x, y, z);
        lemma_cell_box(b, t, x, y, z);
        lemma_aligned_multiple(cell.x, la);
        lemma_aligned_multiple(cell.y, la);
        lemma_aligned_multiple(cell.z, la);
        lemma_aligned_multiple(bc.x, lb);
        lemma_aligned_multiple(bc.y, lb);
        lemma_aligned_multiple(bc.z, lb);
        lemma_edges_nest(la, lb);
        lemma_cell_in_tree(cell.x, la);
        lemma_cell_in_tree(cell.y, la);
        lemma_cell_in_tree(cell.z, la);
        let m = pow2((la - lb) as nat) as int;
        let ex = tree_extent();
        // The probe of the same region moves the point only along the axes where the region
        // spans the cell, and there both points stay inside the cell's own tree.
        let xq: u32 = if e.0 == 0 { qx as u32 } else { x };
        let yq: u32 = if e.1 == 0 { qy as u32 } else { y };
        let zq: u32 = if e.2 == 0 { qz as u32 } else { z };
        if e.0 == 0 {
            vstd::arithmetic::div_mod::lemma_fundamental_div_mod_converse(px, ex, 0, px);
            vstd::arithmetic::div_mod::lemma_fundamental_div_mod_converse(qx, ex, 0, qx);
        }
        if e.1 == 0 {
            vstd::arithmetic::div_mod::lemma_fundamental_div_mod_converse(py, ex, 0, py);
            vstd::arithmetic::div_mod::lemma_fundamental_div_mod_converse(qy, ex, 0, qy);
        }
        if e.2 == 0 {
            vstd::arithmetic::div_mod::lemma_fundamental_div_mod_converse(pz, ex, 0, pz);
            vstd::arithmetic::div_mod::lemma_fundamental_div_mod_converse(qz, ex, 0, qz);
        }
        assert(resolve_spec(g, cell.tree_id, qx, qy, qz) == Some((t, xq, yq, zq)));
        // The coarser leaf holds the whole span of the cell along those axes.
        if e.0 == 0 {
            let ka = cell.x as int / sa;
            let qb = bc.x as int / sb;
            let kb = qb * m;
            assert(bc.x as int == sa * kb) by (nonlinear_arith)
                requires bc.x as int == qb * sb, sb == sa * m, kb == qb * m;
            assert(sa * m == sb);
            lemma_span_nested(sa, ka, kb, m, x as int, xq as int);
        }
        if e.1 == 0 {
            let ka = cell.y as int / sa;
            let qb = bc.y as int / sb;
            let kb = qb * m;
            assert(bc.y as int == sa * kb) by (nonlinear_arith)
                requires bc.y as int == qb * sb, sb == sa * m, kb == qb * m;
            assert(sa * m == sb);
            lemma_span_nested(sa, ka, kb, m, y as int, yq as int);
        }
        if e.2 == 0 {
            let ka = cell.z as int / sa;
            let qb = bc.z as int / sb;
            let kb = qb * m;
            assert(bc.z as int == sa * kb) by (nonlinear_arith)
                requires bc.z as int == qb * sb, sb == sa * m, kb == qb * m;
            assert(sa * m == sb);
            lemma_span_nested(sa, ka, kb, m, z as int, zq as int);
        }
        lemma_cell_box(b, t, xq, yq, zq);
        assert(covers(b, t, crate::morton::morton_of(xq, yq, zq)));
        lemma_leaf_at_is(ks, t, xq, yq, zq, w);
        assert(probe_leaf(ks, g, raw, dn) == Some(b));
        assert(coarse_probe(ks, g, raw, dn) == Some(b));
        assert(coarse_neighbours(ks, g, raw).len() == 0);
        let v = Seq::new(26, |k: int| coarse_probe(ks, g, raw, probe_offsets(sa)[k]));
        lemma_somes_empty(v);
        assert(v[n] is None);
    }
}

/// Index of the leaf at the probe point `corner + (dx, dy, dz)` of `key`, when that leaf is at
/// least two levels coarser than `key`.
fn probe_index(forest: &Forest, keys: &[Key], key: Key, logical: &LogicalCell, dx: i64, dy: i64, dz: i64) -> (r: Option<usize>)
    requires
        keys@.map_values(|k: Key| k@) == forest.key_seq(),
        strictly_sorted(forest.key_seq()),
        grid_addressable(forest.grid()),
        nx_ny_fits(forest.grid()),
        *logical == cell_of_key(key@),
        -1 <= dx <= 0x1_0000_0000,
        -1 <= dy <= 0x1_0000_0000,
        -1 <= dz <= 0x1_0000_0000,
    ensures
        match coarse_probe(forest.key_seq(), forest.grid(), key@, (dx as int, dy as int, dz as int)) {
            Some(k) => r matches Some(idx) && idx < keys@.len() && forest.key_seq()[idx as int] == k,
            None => r is None,
        },
{
    let ghost ks = forest.key_seq();
    let ghost g = forest.grid();
    let px = logical.x as i64 + dx;
    let py = logical.y as i64 + dy;
    let pz = logical.z as i64 + dz;
    proof {
        lemma_coarse_probe_leaf(ks, g, key@, (dx as int, dy as int, dz as int));
    }
    match forest.resolve_coord(logical.tree_id, px, py, pz) {
        Some((t_id, rx, ry, rz)) => {
            proof {
                lemma_resolved_tree_in_grid(g, logical.tree_id, px as int, py as int, pz as int);
            }
            match forest.find_cell_containing(t_id, rx, ry, rz) {
                Some(neighbor) => {
                    if logical.level >= neighbor.level() + 2 {
                        match search_keys(keys, neighbor.packed()) {
                            Ok(idx) => Some(idx),
                            Err(_) => {
                                proof {
                                    let w = choose|w: int| 0 <= w < ks.len() && ks[w] == neighbor@;
                                    assert(keys@[w]@ == neighbor@);
                                }
                                None
                            },
                        }
                    } else {
                        None
                    }
                },
                None => None,
            }
        },
        None => None,
    }
}

/// Collects forest key indices that must be refined so that leaf `i` satisfies the 2:1 rule.
fn balance_refine_indices_for_cell(forest: &Forest, i: usize) -> (r: Vec<usize>)
    requires
        i < forest.key_seq().len(),
        grid_addressable(forest.grid()),
    ensures
        r@.len() == coarse_neighbours(forest.key_seq(), forest.grid(), forest.key_seq()[i as int]).len(),
        forall|j: int| 0 <= j < r@.len() ==> #[trigger] r@[j] < forest.key_seq().len()
            && forest.key_seq()[r@[j] as int] == coarse_neighbours(forest.key_seq(), forest.grid(), forest.key_seq()[i as int])[j],
{
    let keys = forest.keys();
    let ghost ks = forest.key_seq();
    let ghost g = forest.grid();
    let key = keys[i];
    let ghost raw = key@;
    assert(raw == ks[i as int]);
    let logical = key.to_logical();
    let l = logical.level;

    if l < 2 {
        return Vec::new();
    }

    let size = logical.size() as i64;
    proof {
        lemma_leaves_strictly_sorted(ks);
        lemma_grid_fits(g);
    }
    let probes = iter_26_probe_triples(size);
    let ghost offs = probe_offsets(size as int);
    let ghost s = Seq::new(26, |n: int| coarse_probe(ks, g, raw, offs[n]));
    let mut out: Vec<usize> = Vec::new();
    let mut n: usize = 0;
    assert(s.take(0) =~= Seq::<Option<u128>>::empty());
    while n < 26
        invariant
            n <= 26,
            probes@.len() == 26,
            keys@.map_values(|k: Key| k@) == ks,
            ks == forest.key_seq(),
            g == forest.grid(),
            grid_addressable(g),
            nx_ny_fits(g),
            strictly_sorted(ks),
            raw == ks[i as int],
            raw == key@,
            logical == cell_of_key(raw),
            l == key_level(raw),
            l >= 2,
            size as int == cell_size(l),
            1 <= size <= 0x1_0000_0000,
            offs == probe_offsets(size as int),
            s == Seq::new(26, |n: int| coarse_probe(ks, g, raw, offs[n])),
            forall|q: int| 0 <= q < 26 ==> (#[trigger] probes@[q]).0 as int == offs[q].0
                && probes@[q].1 as int == offs[q].1 && probes@[q].2 as int == offs[q].2,
            out@.len() == somes(s.take(n as int)).len(),
            forall|j: int| 0 <= j < out@.len() ==> #[trigger] out@[j] < ks.len() && ks[out@[j] as int] == somes(s.take(n as int))[j],
        decreases 26 - n,
    {
        let (dx, dy, dz) = probes[n];
        let ghost sn = s[n as int];
        proof {
            assert(s.take(n + 1) =~= s.take(n as int).push(sn));
            lemma_somes_push(s.take(n as int), sn);
            let nn = n as int;
            let k = if nn < 13 { nn } else { nn + 1 };
            assert(offs[nn] == (probe_coord(size as int, k / 9), probe_coord(size as int, (k / 3) % 3), probe_coord(size as int, k % 3)));
            assert((dx as int, dy as int, dz as int) == offs[nn]);
            lemma_probe_coord_range(size as int, k / 9);
            lemma_probe_coord_range(size as int, (k / 3) % 3);
            lemma_probe_coord_range(size as int, k % 3);
            assert(sn == coarse_probe(ks, g, raw, offs[nn]));
        }
        match probe_index(forest, keys, key, &logical, dx, dy, dz) {
            Some(idx) => {
                out.push(idx);
            },
            None => {},
        }
        n = n + 1;
    }
    assert(s.take(26) =~= s);
    out
}

/// Picked indices: some of the first `m` entries of `indices` equals `q`.
spec fn picked(indices: Seq<usize>, m: int, q: int) -> bool {
    exists|mm: int| 0 <= mm < m && #[trigger] indices[mm] as int == q
}

impl Forest {
    /// Enforces 2:1 level balance against the 26-neighbour stencil.
    ///
    /// When a cell at level `L` touches a neighbour at level at most `L-2`, the coarser neighbour
    /// is marked for [`Forest::refine_by_flags`]. Repeats until no flags are set.
    pub fn enforce_2_to_1_balance(&mut self)
        requires
            grid_addressable(old(self).grid()),
        ensures
            final(self).grid() == old(self).grid(),
            final(self).key_seq() == balance_fix(old(self).key_seq(), old(self).grid()),
            balanced(final(self).key_seq(), final(self).grid()),
            forall|t: u32, x: u32, y: u32, z: u32| t < TREE_LIMIT ==>
                (#[trigger] leaf_at(final(self).key_seq(), t, x, y, z) is Some) == (leaf_at(old(self).key_seq(), t, x, y, z) is Some),
    {
        let ghost ks0 = self.key_seq();
        let ghost g0 = self.grid();
        let mut done = false;
        while !done
            invariant
                self.grid() == g0,
                grid_addressable(g0),
                balance_fix(self.key_seq(), g0) == balance_fix(ks0, g0),
                done ==> balanced(self.key_seq(), self.grid()),
                done ==> self.key_seq() == balance_fix(ks0, g0),
                forall|t: u32, x: u32, y: u32, z: u32| t < TREE_LIMIT ==>
                    (#[trigger] leaf_at(self.key_seq(), t, x, y, z) is Some) == (leaf_at(ks0, t, x, y, z) is Some),
            decreases potential(self.key_seq()), (if done { 0int } else { 1int }),
        {
            let n = self.num_cells();
            let ghost ks = self.key_seq();
            let ghost g = self.grid();
            proof {
                lemma_leaves_strictly_sorted(ks);
            }
            let mut flags = vec![false; n];
            let mut changed = false;
            let mut i: usize = 0;
            while i < n
                invariant
                    n == ks.len(),
                    ks == self.key_seq(),
                    g == self.grid(),
                    grid_addressable(g),
                    leaves_well_formed(ks),
                    strictly_sorted(ks),
                    i <= n,
                    flags@.len() == n,
                    forall|q: int| 0 <= q < n ==> #[trigger] flags@[q] == flagged_by(ks, g, q, i as int),
                    forall|q: int| 0 <= q < n ==> #[trigger] flags@[q] ==> key_level(ks[q]) < 32,
                    changed <==> exists|q: int| 0 <= q < n && #[trigger] flags@[q],
                    !changed ==> forall|j: int| 0 <= j < i ==> #[trigger] coarse_neighbours(ks, g, ks[j]).len() == 0,
                decreases n - i,
            {
                let indices = balance_refine_indices_for_cell(self, i);
                let ghost cn = coarse_neighbours(ks, g, ks[i as int]);
                proof {
                    lemma_coarse_neighbours_are_coarse_leaves(ks, g, ks[i as int]);
                }
                let ghost changed_before = changed;
                let ghost flags_before = flags@;
                let mut m: usize = 0;
                while m < indices.len()
                    invariant
                        n == ks.len(),
                        leaves_well_formed(ks),
                        flags@.len() == n,
                        flags_before.len() == n,
                        indices@.len() == cn.len(),
                        forall|j: int| 0 <= j < indices@.len() ==> #[trigger] indices@[j] < ks.len() && ks[indices@[j] as int] == cn[j],
                        forall|j: int| 0 <= j < cn.len() ==> key_level(ks[i as int]) >= key_level(#[trigger] cn[j]) + 2,
                        key_level(ks[i as int]) <= 32,
                        m <= indices@.len(),
                        forall|q: int| 0 <= q < n ==> #[trigger] flags@[q] == (flags_before[q] || picked(indices@, m as int, q)),
                        forall|q: int| 0 <= q < n ==> #[trigger] flags_before[q] ==> key_level(ks[q]) < 32,
                        changed_before <==> exists|q: int| 0 <= q < n && #[trigger] flags_before[q],
                        changed <==> exists|q: int| 0 <= q < n && #[trigger] flags@[q],
                        m > 0 ==> flags@[indices@[0] as int],
                        changed_before ==> changed,
                    decreases indices@.len() - m,
                {
                    let idx = indices[m];
                    proof {
                        assert(key_level(ks[idx as int]) + 2 <= key_level(ks[i as int]));
                    }
                    let ghost prev = flags@;
                    if !flags[idx] {
                        flags[idx] = true;
                        changed = true;
                    }
                    proof {
                        assert forall|q: int| 0 <= q < n implies #[trigger] flags@[q] == (flags_before[q] || picked(indices@, m + 1, q)) by {
                            if picked(indices@, m + 1, q) && !picked(indices@, m as int, q) {
                                assert(indices@[m as int] as int == q);
                            }
                            if picked(indices@, m as int, q) {
                                let mm = choose|mm: int| 0 <= mm < m && #[trigger] indices@[mm] as int == q;
                                assert(picked(indices@, m + 1, q));
                            }
                            if q == idx as int {
                                assert(picked(indices@, m + 1, q));
                            } else {
                                assert(flags@[q] == prev[q]);
                            }
                        }
                    }
                    m = m + 1;
                }
                proof {
                    assert forall|q: int| 0 <= q < n implies #[trigger] flags@[q] == flagged_by(ks, g, q, i + 1) by {
                        if picked(indices@, indices@.len() as int, q) {
                            let mm = choose|mm: int| 0 <= mm < indices@.len() && #[trigger] indices@[mm] as int == q;
                            assert(cn[mm] == ks[q]);
                            assert(cn.contains(ks[q]));
                            assert(coarse_neighbours(ks, g, ks[i as int]).contains(ks[q]));
                        }
                        if flagged_by(ks, g, q, i as int) {
                            let j = choose|j: int| 0 <= j < i && #[trigger] coarse_neighbours(ks, g, ks[j]).contains(ks[q]);
                            assert(flagged_by(ks, g, q, i + 1));
                        }
                        if cn.contains(ks[q]) {
                            let mm = choose|mm: int| 0 <= mm < cn.len() && cn[mm] == ks[q];
                            let w = indices@[mm] as int;
                            assert(ks[w] == ks[q]);
                            if w != q {
                                if w < q {
                                    assert(ks[w] < ks[q]);
                                } else {
                                    assert(ks[q] < ks[w]);
                                }
                            }
                            assert(picked(indices@, indices@.len() as int, q));
                        }
                        if flagged_by(ks, g, q, i + 1) && !flagged_by(ks, g, q, i as int) {
                            let j = choose|j: int| 0 <= j < i + 1 && #[trigger] coarse_neighbours(ks, g, ks[j]).contains(ks[q]);
                            assert(j == i);
                        }
                    }
                    assert forall|q: int| 0 <= q < n && #[trigger] flags@[q] implies key_level(ks[q]) < 32 by {
                        if flags@[q] && !flags_before[q] {
                            let mm = choose|mm: int| 0 <= mm < indices@.len() && #[trigger] indices@[mm] as int == q;
                            assert(ks[q] == cn[mm]);
                        }
                    }
                    if cn.len() > 0 {
                        assert(flags@[indices@[0] as int]);
                    }
                    assert forall|j: int| 0 <= j < i + 1 && !changed implies #[trigger] coarse_neighbours(ks, g, ks[j]).len() == 0 by {
                        if j < i {
                        } else {
                            if cn.len() > 0 {
                                assert(flags@[indices@[0] as int]);
                            }
                        }
                    }
                }
                i = i + 1;
            }
            proof {
                use_type_invariant(&*self);
                assert(all_cells(ks));
            }
            if !changed {
                proof {
                    assert(balanced(ks, g));
                    assert(balance_fix(ks, g) == ks);
                }
                done = true;
            } else {
                proof {
                    assert(flags@ =~= balance_flags(ks, g));
                    let q = choose|q: int| 0 <= q < n && #[trigger] flags@[q];
                    assert(flags@[q] && key_level(ks[q]) < 32);
                    let j = choose|j: int| 0 <= j < ks.len() && #[trigger] coarse_neighbours(ks, g, ks[j]).contains(ks[q]);
                    assert(coarse_neighbours(ks, g, ks[j]).len() != 0);
                    assert(!balanced(ks, g));
                    lemma_balance_fix_step(ks, g);
                    assert(flags@ == balance_flags(ks, g));
                    assert(balance_fix(ks, g) == balance_fix(refine_seq(ks, flags@), g));
                    lemma_refine_potential(ks, flags@);
                }
                self.refine_by_flags(&flags);
                proof {
                    assert forall|t: u32, x: u32, y: u32, z: u32| t < TREE_LIMIT implies
                        (#[trigger] leaf_at(self.key_seq(), t, x, y, z) is Some) == (leaf_at(ks0, t, x, y, z) is Some) by {
                        lemma_refine_coarsen_keep_region(ks, flags@, t, x, y, z);
                        assert((leaf_at(ks, t, x, y, z) is Some) == (leaf_at(ks0, t, x, y, z) is Some));
                    }
                }
            }
        }
    }
}

} // verus!
