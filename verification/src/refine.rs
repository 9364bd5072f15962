//! Bulk refine and coarsen in linear time over the sorted key array.

use vstd::prelude::*;
use crate::forest::{Forest, leaves_well_formed, all_cells};
use crate::key::{Key, lemma_key_eq, key_level, key_is_cell, cell_end, child_raw, parent_raw, lemma_children_of_cell, lemma_parent_of_cell, lemma_end_before_first_child, lemma_cell_range_nonempty, TREE_LIMIT, MORTON_LIMIT};
use crate::MAX_LEVEL;
use crate::query::{covers, leaf_at, lemma_children_cover};
use crate::morton::{morton_of, lemma_morton_of};

verus! {

/// What a leaf becomes under refinement: its eight children when flagged and below
/// [`MAX_LEVEL`], otherwise itself.
pub open spec fn refined_piece(k: u128, flag: bool) -> Seq<u128> {
    if flag && key_level(k) < 32 {
        Seq::new(8, |j: int| child_raw(k, j as u128))
    } else {
        seq![k]
    }
}

/// The leaf list after replacing every flagged leaf (below [`MAX_LEVEL`]) by its eight
/// children, in place.
pub open spec fn refine_seq(ks: Seq<u128>, flags: Seq<bool>) -> Seq<u128> {
    Seq::new(ks.len(), |i: int| refined_piece(ks[i], flags[i])).flatten()
}

proof fn lemma_piece_well_formed(k: u128, flag: bool)
    requires
        key_is_cell(k),
    ensures
        leaves_well_formed(refined_piece(k, flag)),
        refined_piece(k, flag).len() >= 1,
        k <= refined_piece(k, flag)[0],
        forall|p: int| 0 <= p < refined_piece(k, flag).len() ==> cell_end(#[trigger] refined_piece(k, flag)[p]) <= cell_end(k),
        forall|p: int| 0 <= p < refined_piece(k, flag).len() ==> k <= #[trigger] refined_piece(k, flag)[p],
{
    let pc = refined_piece(k, flag);
    if flag && key_level(k) < 32 {
        lemma_children_of_cell(k);
        assert forall|i: int| 0 <= i < pc.len() implies key_is_cell(#[trigger] pc[i]) by {
            assert(pc[i] == child_raw(k, i as u128));
        }
        assert forall|i: int, j: int| 0 <= i < j < pc.len() implies cell_end(#[trigger] pc[i]) <= #[trigger] pc[j] by {
            assert(pc[i] == child_raw(k, i as u128));
            assert(pc[j] == child_raw(k, j as u128));
        }
        assert forall|p: int| 0 <= p < pc.len() implies cell_end(#[trigger] pc[p]) <= cell_end(k) && k <= pc[p] by {
            assert(pc[p] == child_raw(k, p as u128));
            if p > 0 {
                assert(cell_end(child_raw(k, 0)) <= child_raw(k, p as u128));
            }
        }
    } else {
        lemma_cell_range_nonempty(k);
    }
}

/// Eight consecutive flagged leaves starting at `i` are exactly the children, in order, of
/// the parent of leaf `i`, and leaf `i` is not a root.
pub open spec fn merge_at(ks: Seq<u128>, flags: Seq<bool>, i: int) -> bool {
    &&& flags[i]
    &&& key_level(ks[i]) > 0
    &&& i + 8 <= ks.len()
    &&& sibling_prefix(ks, flags, i, parent_raw(ks[i]), 8)
}

/// Leaves `i .. i + n` are flagged and are the first `n` children of `p`, in order.
pub open spec fn sibling_prefix(ks: Seq<u128>, flags: Seq<bool>, i: int, p: u128, n: int) -> bool {
    forall|k: int| i <= k < i + n ==> #[trigger] ks[k] == child_raw(p, (k - i) as u128) && flags[k]
}

proof fn lemma_sibling_prefix_step(ks: Seq<u128>, flags: Seq<bool>, i: int, p: u128, n: int)
    requires
        n >= 0,
    ensures
        sibling_prefix(ks, flags, i, p, n + 1) == (sibling_prefix(ks, flags, i, p, n) && ks[i + n]
            == child_raw(p, n as u128) && flags[i + n]),
{
    let k = i + n;
    assert((k - i) as u128 == n as u128);
}

/// Greedy left-to-right coarsening from position `i`: each complete flagged sibling group is
/// replaced by its parent, every other leaf is kept.
pub open spec fn coarsen_from(ks: Seq<u128>, flags: Seq<bool>, i: int) -> Seq<u128>
    decreases ks.len() - i,
{
    if i < 0 || i >= ks.len() {
        Seq::empty()
    } else if merge_at(ks, flags, i) {
        seq![parent_raw(ks[i])] + coarsen_from(ks, flags, i + 8)
    } else {
        seq![ks[i]] + coarsen_from(ks, flags, i + 1)
    }
}

/// Refining every leaf once.
pub open spec fn refine_all(ks: Seq<u128>) -> Seq<u128> {
    refine_seq(ks, Seq::new(ks.len(), |i: int| true))
}

/// Refining every leaf once, `n` times over.
pub open spec fn refine_all_times(ks: Seq<u128>, n: nat) -> Seq<u128>
    decreases n,
{
    if n == 0 {
        ks
    } else {
        refine_all(refine_all_times(ks, (n - 1) as nat))
    }
}

impl Forest {
    /// Refines selected cells: each flagged leaf below [`MAX_LEVEL`] is replaced by its eight
    /// children. Replacing a parent by its children in SFC order keeps the array sorted.
    pub fn refine_by_flags(&mut self, flags: &[bool])
        requires
            flags@.len() == old(self).key_seq().len(),
        ensures
            final(self).key_seq() == refine_seq(old(self).key_seq(), flags@),
            final(self).grid() == old(self).grid(),
    {
        let keys = self.keys();
        let ghost ks = self.key_seq();
        let ghost pieces = Seq::new(ks.len(), |i: int| refined_piece(ks[i], flags@[i]));
        let mut new_keys: Vec<Key> = Vec::with_capacity(keys.len());
        let mut i: usize = 0;
        assert(pieces.take(0) =~= Seq::<Seq<u128>>::empty());
        assert(new_keys@.map_values(|k: Key| k@) =~= pieces.take(0).flatten());
        while i < keys.len()
            invariant
                keys@.map_values(|k: Key| k@) == ks,
                leaves_well_formed(ks),
                flags@.len() == ks.len(),
                pieces == Seq::new(ks.len(), |i: int| refined_piece(ks[i], flags@[i])),
                i <= ks.len(),
                new_keys@.map_values(|k: Key| k@) == pieces.take(i as int).flatten(),
                leaves_well_formed(new_keys@.map_values(|k: Key| k@)),
                i < ks.len() ==> forall|p: int| 0 <= p < new_keys@.len() ==> cell_end(#[trigger] new_keys@[p]@) <= ks[i as int],
            decreases ks.len() - i,
        {
            let key = keys[i];
            let ghost before = new_keys@.map_values(|k: Key| k@);
            let ghost k = ks[i as int];
            assert(key@ == k);
            let ghost pc = refined_piece(k, flags@[i as int]);
            proof {
                lemma_piece_well_formed(k, flags@[i as int]);
            }
            if flags[i] && key.level() < MAX_LEVEL {
                let children = key.children();
                let mut j: usize = 0;
                while j < 8
                    invariant
                        0 <= j <= 8,
                        forall|q: int| 0 <= q < 8 ==> (#[trigger] children[q])@ == child_raw(k, q as u128),
                        new_keys@.map_values(|k: Key| k@) == before + pc.take(j as int),
                        pc == Seq::new(8, |j: int| child_raw(k, j as u128)),
                    decreases 8 - j,
                {
                    let ghost prev = new_keys@;
                    let c = children[j];
                    assert(c@ == pc[j as int]);
                    new_keys.push(c);
                    assert(new_keys@ == prev.push(c));
                    assert(new_keys@.map_values(|k: Key| k@) =~= prev.map_values(|k: Key| k@).push(c@));
                    assert(pc.take(j + 1) =~= pc.take(j as int).push(pc[j as int]));
                    assert(new_keys@.map_values(|k: Key| k@) =~= before + pc.take(j + 1));
                    j = j + 1;
                }
                assert(pc.take(8) =~= pc);
            } else {
                new_keys.push(key);
                assert(new_keys@.map_values(|k: Key| k@) =~= before + pc);
            }
            proof {
                let after = new_keys@.map_values(|k: Key| k@);
                assert(after == before + pc);
                assert(pieces.take(i + 1) =~= pieces.take(i as int).push(pieces[i as int]));
                pieces.take(i as int).lemma_flatten_push(pieces[i as int]);
                // well-formedness of the extended list
                assert forall|a: int| 0 <= a < after.len() implies key_is_cell(#[trigger] after[a]) by {
                    if a >= before.len() {
                        assert(after[a] == pc[a - before.len()]);
                    }
                }
                assert forall|a: int, b: int| 0 <= a < b < after.len() implies cell_end(#[trigger] after[a]) <= #[trigger] after[b] by {
                    if a < before.len() && b >= before.len() {
                        assert(cell_end(before[a]) <= k);
                        assert(after[b] == pc[b - before.len()]);
                    } else if a >= before.len() {
                        assert(after[a] == pc[a - before.len()]);
                        assert(after[b] == pc[b - before.len()]);
                    }
                }
                if i + 1 < ks.len() {
                    assert(cell_end(k) <= ks[i + 1]);
                    assert forall|p: int| 0 <= p < new_keys@.len() implies cell_end(#[trigger] new_keys@[p]@) <= ks[i + 1] by {
                        assert(new_keys@[p]@ == after[p]);
                        if p < before.len() {
                            assert(cell_end(before[p]) <= k);
                            lemma_cell_range_nonempty(k);
                        } else {
                            assert(after[p] == pc[p - before.len()]);
                        }
                    }
                }
            }
            i = i + 1;
        }
        proof {
            assert(pieces.take(ks.len() as int) =~= pieces);
        }
        self.replace_keys(new_keys);
    }

    /// Coarsens where eight consecutive siblings are present, flagged, and contiguous in sort
    /// order: those eight keys are replaced by their parent (single left-to-right pass).
    pub fn coarsen_by_flags(&mut self, flags: &[bool])
        requires
            flags@.len() == old(self).key_seq().len(),
        ensures
            final(self).key_seq() == coarsen_from(old(self).key_seq(), flags@, 0),
            final(self).grid() == old(self).grid(),
    {
        let keys = self.keys();
        let ghost ks = self.key_seq();
        let n = keys.len();
        let mut new_keys: Vec<Key> = Vec::with_capacity(n);
        let mut i: usize = 0;
        assert(new_keys@.map_values(|k: Key| k@) + coarsen_from(ks, flags@, 0) =~= coarsen_from(ks, flags@, 0));
        while i < n
            invariant
                keys@.map_values(|k: Key| k@) == ks,
                n == ks.len(),
                leaves_well_formed(ks),
                flags@.len() == ks.len(),
                i <= n,
                new_keys@.map_values(|k: Key| k@) + coarsen_from(ks, flags@, i as int) == coarsen_from(ks, flags@, 0),
                leaves_well_formed(new_keys@.map_values(|k: Key| k@)),
                i < n ==> forall|p: int| 0 <= p < new_keys@.len() ==> cell_end(#[trigger] new_keys@[p]@) <= ks[i as int],
            decreases n - i,
        {
            let key = keys[i];
            let ghost before = new_keys@.map_values(|k: Key| k@);
            let ghost k = ks[i as int];
            assert(key@ == k);
            if flags[i] && key.level() > 0 && 8 <= n - i {
                proof {
                    lemma_parent_of_cell(k);
                }
                let parent = key.parent().unwrap();
                let expected_children = parent.children();
                let mut can_coarsen = true;
                let mut j: usize = 0;
                while j < 8
                    invariant
                        keys@.map_values(|k: Key| k@) == ks,
                        flags@.len() == ks.len(),
                        i + 8 <= n == ks.len(),
                        j <= 8,
                        forall|q: int| 0 <= q < 8 ==> (#[trigger] expected_children[q])@ == child_raw(parent@, q as u128),
                        can_coarsen == sibling_prefix(ks, flags@, i as int, parent@, j as int),
                    decreases 8 - j,
                {
                    let a = keys[i + j];
                    let b = expected_children[j];
                    proof {
                        lemma_key_eq(a, b);
                        assert(a@ == ks[i + j]);
                        assert(b@ == child_raw(parent@, j as u128));
                    }
                    proof {
                        lemma_sibling_prefix_step(ks, flags@, i as int, parent@, j as int);
                    }
                    if !(a == b && flags[i + j]) {
                        can_coarsen = false;
                    }
                    j = j + 1;
                }
                assert(can_coarsen == merge_at(ks, flags@, i as int));
                if can_coarsen {
                    proof {
                        lemma_parent_of_cell(k);
                        let p = parent_raw(k);
                        lemma_children_of_cell(p);
                        assert(ks[i + 7] == child_raw(p, 7));
                        assert(ks[i + 0] == child_raw(p, 0));
                    }
                    new_keys.push(parent);
                    proof {
                        let p = parent_raw(k);
                        let after = new_keys@.map_values(|k: Key| k@);
                        assert(after =~= before.push(p));
                        assert(coarsen_from(ks, flags@, i as int) == seq![p] + coarsen_from(ks, flags@, i + 8));
                        assert(after + coarsen_from(ks, flags@, i + 8) =~= before + coarsen_from(ks, flags@, i as int));
                        assert forall|a: int| 0 <= a < before.len() implies cell_end(#[trigger] before[a]) <= p by {
                            assert(before[a] == new_keys@[a]@);
                            lemma_end_before_first_child(before[a], p);
                        }
                        assert forall|a: int, b: int| 0 <= a < b < after.len() implies cell_end(#[trigger] after[a]) <= #[trigger] after[b] by {
                            if b == before.len() {
                                assert(after[b] == p);
                            } else {
                                assert(after[a] == before[a]);
                                assert(after[b] == before[b]);
                            }
                        }
                        assert forall|a: int| 0 <= a < after.len() implies key_is_cell(#[trigger] after[a]) by {
                            if a < before.len() {
                                assert(after[a] == before[a]);
                            }
                        }
                        if i + 8 < n {
                            assert(cell_end(ks[i + 7]) <= ks[i + 8]);
                            lemma_cell_range_nonempty(p);
                            assert forall|q: int| 0 <= q < new_keys@.len() implies cell_end(#[trigger] new_keys@[q]@) <= ks[i + 8] by {
                                assert(new_keys@[q]@ == after[q]);
                                if q < before.len() {
                                    assert(cell_end(before[q]) <= p);
                                }
                            }
                        }
                    }
                    i = i + 8;
                    continue;
                }
            }
            new_keys.push(key);
            proof {
                let after = new_keys@.map_values(|k: Key| k@);
                assert(after =~= before.push(k));
                assert(!merge_at(ks, flags@, i as int));
                assert(coarsen_from(ks, flags@, i as int) == seq![k] + coarsen_from(ks, flags@, i + 1));
                assert(after + coarsen_from(ks, flags@, i + 1) =~= before + coarsen_from(ks, flags@, i as int));
                assert forall|a: int, b: int| 0 <= a < b < after.len() implies cell_end(#[trigger] after[a]) <= #[trigger] after[b] by {
                    if b == before.len() {
                        assert(after[b] == k);
                        assert(before[a] == new_keys@[a]@);
                    } else {
                        assert(after[a] == before[a]);
                        assert(after[b] == before[b]);
                    }
                }
                assert forall|a: int| 0 <= a < after.len() implies key_is_cell(#[trigger] after[a]) by {
                    if a < before.len() {
                        assert(after[a] == before[a]);
                    }
                }
                if i + 1 < n {
                    assert(cell_end(k) <= ks[i + 1]);
                    lemma_cell_range_nonempty(k);
                    assert forall|q: int| 0 <= q < new_keys@.len() implies cell_end(#[trigger] new_keys@[q]@) <= ks[i + 1] by {
                        assert(new_keys@[q]@ == after[q]);
                    }
                }
            }
            i = i + 1;
        }
        proof {
            assert(coarsen_from(ks, flags@, n as int) == Seq::<u128>::empty());
            assert(new_keys@.map_values(|k: Key| k@) =~= coarsen_from(ks, flags@, 0));
        }
        self.replace_keys(new_keys);
    }

    /// Uniformly refines all cells `n_times` times.
    pub fn uniform_refinement(&mut self, n_times: u8)
        ensures
            final(self).key_seq() == refine_all_times(old(self).key_seq(), n_times as nat),
            final(self).grid() == old(self).grid(),
    {
        let mut t: u8 = 0;
        let ghost ks0 = self.key_seq();
        while t < n_times
            invariant
                t <= n_times,
                self.key_seq() == refine_all_times(ks0, t as nat),
                self.grid() == old(self).grid(),
            decreases n_times - t,
        {
            let refine_flags = vec![true; self.num_cells()];
            assert(refine_flags@ =~= Seq::new(self.key_seq().len(), |i: int| true));
            self.refine_by_flags(&refine_flags);
            t = t + 1;
        }
    }
}

// ---------------------------------------------------------------------------------------------
// Covered region.

/// Some leaf of `ks` covers the point with Morton code `c` in tree `t`.
pub open spec fn any_covers(ks: Seq<u128>, t: u32, c: u128) -> bool {
    exists|i: int| 0 <= i < ks.len() && #[trigger] covers(ks[i], t, c)
}

proof fn lemma_any_covers_concat(a: Seq<u128>, b: Seq<u128>, t: u32, c: u128)
    ensures
        any_covers(a + b, t, c) <==> (any_covers(a, t, c) || any_covers(b, t, c)),
{
    let ab = a + b;
    if any_covers(ab, t, c) {
        let i = choose|i: int| 0 <= i < ab.len() && #[trigger] covers(ab[i], t, c);
        if i < a.len() {
            assert(ab[i] == a[i]);
        } else {
            assert(ab[i] == b[i - a.len()]);
        }
    }
    if any_covers(a, t, c) {
        let i = choose|i: int| 0 <= i < a.len() && #[trigger] covers(a[i], t, c);
        assert(ab[i] == a[i]);
    }
    if any_covers(b, t, c) {
        let i = choose|i: int| 0 <= i < b.len() && #[trigger] covers(b[i], t, c);
        assert(ab[i + a.len()] == b[i]);
    }
}

proof fn lemma_piece_covers(k: u128, flag: bool, t: u32, c: u128)
    requires
        key_is_cell(k),
        t < TREE_LIMIT,
        c < MORTON_LIMIT,
    ensures
        any_covers(refined_piece(k, flag), t, c) <==> covers(k, t, c),
{
    let pc = refined_piece(k, flag);
    if flag && key_level(k) < 32 {
        lemma_children_cover(k, t, c);
        if covers(k, t, c) {
            let j = choose|j: u128| j < 8 && #[trigger] covers(child_raw(k, j), t, c);
            assert(pc[j as int] == child_raw(k, j));
        }
        if any_covers(pc, t, c) {
            let i = choose|i: int| 0 <= i < pc.len() && #[trigger] covers(pc[i], t, c);
            assert(pc[i] == child_raw(k, i as u128));
        }
    } else {
        if covers(k, t, c) {
            assert(pc[0] == k);
        }
    }
}

proof fn lemma_refine_prefix_coverage(ks: Seq<u128>, flags: Seq<bool>, m: int, t: u32, c: u128)
    requires
        all_cells(ks),
        flags.len() == ks.len(),
        0 <= m <= ks.len(),
        t < TREE_LIMIT,
        c < MORTON_LIMIT,
    ensures
        any_covers(Seq::new(ks.len(), |i: int| refined_piece(ks[i], flags[i])).take(m).flatten(), t, c)
            <==> any_covers(ks.take(m), t, c),
    decreases m,
{
    let pieces = Seq::new(ks.len(), |i: int| refined_piece(ks[i], flags[i]));
    if m == 0 {
        assert(pieces.take(0) =~= Seq::<Seq<u128>>::empty());
        assert(pieces.take(0).flatten() =~= Seq::<u128>::empty());
        assert(ks.take(0) =~= Seq::<u128>::empty());
    } else {
        let p = m - 1;
        lemma_refine_prefix_coverage(ks, flags, p, t, c);
        assert(pieces.take(m) =~= pieces.take(p).push(pieces[p]));
        pieces.take(p).lemma_flatten_push(pieces[p]);
        lemma_any_covers_concat(pieces.take(p).flatten(), pieces[p], t, c);
        lemma_piece_covers(ks[p], flags[p], t, c);
        assert(ks.take(m) =~= ks.take(p) + seq![ks[p]]);
        lemma_any_covers_concat(ks.take(p), seq![ks[p]], t, c);
        if covers(ks[p], t, c) {
            assert(seq![ks[p]][0] == ks[p]);
        }
        if any_covers(seq![ks[p]], t, c) {
            assert(seq![ks[p]][0] == ks[p]);
        }
    }
}

/// Refinement keeps the covered region: a point is covered by the refined leaves exactly when
/// it was covered before.
pub proof fn lemma_refine_keeps_coverage(ks: Seq<u128>, flags: Seq<bool>, t: u32, c: u128)
    requires
        all_cells(ks),
        flags.len() == ks.len(),
        t < TREE_LIMIT,
        c < MORTON_LIMIT,
    ensures
        any_covers(refine_seq(ks, flags), t, c) <==> any_covers(ks, t, c),
{
    let pieces = Seq::new(ks.len(), |i: int| refined_piece(ks[i], flags[i]));
    lemma_refine_prefix_coverage(ks, flags, ks.len() as int, t, c);
    assert(pieces.take(ks.len() as int) =~= pieces);
    assert(ks.take(ks.len() as int) =~= ks);
}

/// Coarsening keeps the covered region of the leaves from position `i` on.
pub proof fn lemma_coarsen_keeps_coverage(ks: Seq<u128>, flags: Seq<bool>, i: int, t: u32, c: u128)
    requires
        all_cells(ks),
        flags.len() == ks.len(),
        0 <= i,
        t < TREE_LIMIT,
        c < MORTON_LIMIT,
    ensures
        any_covers(coarsen_from(ks, flags, i), t, c) <==> (exists|j: int| i <= j < ks.len() && #[trigger] covers(ks[j], t, c)),
    decreases ks.len() - i,
{
    if i >= ks.len() {
    } else if merge_at(ks, flags, i) {
        lemma_coarsen_keeps_coverage(ks, flags, i + 8, t, c);
        let p = parent_raw(ks[i]);
        lemma_parent_of_cell(ks[i]);
        lemma_children_cover(p, t, c);
        lemma_any_covers_concat(seq![p], coarsen_from(ks, flags, i + 8), t, c);
        assert forall|j: int| i <= j < i + 8 implies #[trigger] ks[j] == child_raw(p, (j - i) as u128) by {}
        if covers(p, t, c) {
            let q = choose|q: u128| q < 8 && #[trigger] covers(child_raw(p, q), t, c);
            assert(ks[i + q] == child_raw(p, q));
        }
        if exists|j: int| i <= j < ks.len() && #[trigger] covers(ks[j], t, c) {
            let j = choose|j: int| i <= j < ks.len() && #[trigger] covers(ks[j], t, c);
            if j < i + 8 {
                assert(ks[j] == child_raw(p, (j - i) as u128));
                assert(covers(child_raw(p, (j - i) as u128), t, c));
            }
        }
        if any_covers(seq![p], t, c) {
            assert(seq![p][0] == p);
        }
        if covers(p, t, c) {
            assert(seq![p][0] == p);
        }
    } else {
        lemma_coarsen_keeps_coverage(ks, flags, i + 1, t, c);
        lemma_any_covers_concat(seq![ks[i]], coarsen_from(ks, flags, i + 1), t, c);
        if covers(ks[i], t, c) {
            assert(seq![ks[i]][0] == ks[i]);
        }
        if any_covers(seq![ks[i]], t, c) {
            assert(seq![ks[i]][0] == ks[i]);
        }
    }
}

/// Refining and coarsening keep the region the leaves cover: the same points have a leaf.
pub proof fn lemma_refine_coarsen_keep_region(ks: Seq<u128>, flags: Seq<bool>, t: u32, x: u32, y: u32, z: u32)
    requires
        leaves_well_formed(ks),
        flags.len() == ks.len(),
        t < TREE_LIMIT,
    ensures
        (leaf_at(refine_seq(ks, flags), t, x, y, z) is Some) == (leaf_at(ks, t, x, y, z) is Some),
        (leaf_at(coarsen_from(ks, flags, 0), t, x, y, z) is Some) == (leaf_at(ks, t, x, y, z) is Some),
{
    let c = morton_of(x, y, z);
    lemma_morton_of(x, y, z);
    lemma_refine_keeps_coverage(ks, flags, t, c);
    lemma_coarsen_keeps_coverage(ks, flags, 0, t, c);
}

// ---------------------------------------------------------------------------------------------
// Refinement potential.

/// `9^d`.
pub open spec fn nine_pow(d: nat) -> nat
    decreases d,
{
    if d == 0 {
        1
    } else {
        9 * nine_pow((d - 1) as nat)
    }
}

/// Weight of a leaf: `9^(32 - level)`; eight children weigh less than their parent.
pub open spec fn leaf_weight(raw: u128) -> nat {
    nine_pow((32 - key_level(raw)) as nat)
}

/// Sum of the leaf weights; refinement strictly decreases it.
pub open spec fn potential(ks: Seq<u128>) -> nat
    decreases ks.len(),
{
    if ks.len() == 0 {
        0
    } else {
        potential(ks.drop_last()) + leaf_weight(ks.last())
    }
}

proof fn lemma_nine_pow_pos(d: nat)
    ensures
        nine_pow(d) >= 1,
    decreases d,
{
    if d > 0 {
        lemma_nine_pow_pos((d - 1) as nat);
    }
}

proof fn lemma_potential_concat(a: Seq<u128>, b: Seq<u128>)
    ensures
        potential(a + b) == potential(a) + potential(b),
    decreases b.len(),
{
    if b.len() > 0 {
        lemma_potential_concat(a, b.drop_last());
        assert((a + b).drop_last() =~= a + b.drop_last());
        assert((a + b).last() == b.last());
    } else {
        assert(a + b =~= a);
    }
}

proof fn lemma_potential_uniform(s: Seq<u128>, w: nat)
    requires
        forall|i: int| 0 <= i < s.len() ==> leaf_weight(#[trigger] s[i]) == w,
    ensures
        potential(s) == s.len() * w,
    decreases s.len(),
{
    if s.len() > 0 {
        lemma_potential_uniform(s.drop_last(), w);
        assert(leaf_weight(s[s.len() - 1]) == w);
        assert((s.len() - 1) * w + w == s.len() * w) by (nonlinear_arith);
    }
}

proof fn lemma_piece_potential(k: u128, flag: bool)
    requires
        key_is_cell(k),
    ensures
        potential(refined_piece(k, flag)) <= leaf_weight(k),
        flag && key_level(k) < 32 ==> potential(refined_piece(k, flag)) < leaf_weight(k),
{
    let pc = refined_piece(k, flag);
    if flag && key_level(k) < 32 {
        lemma_children_of_cell(k);
        let d = (32 - key_level(k)) as nat;
        let w = nine_pow((d - 1) as nat);
        assert forall|i: int| 0 <= i < pc.len() implies leaf_weight(#[trigger] pc[i]) == w by {
            assert(pc[i] == child_raw(k, i as u128));
            assert(key_level(child_raw(k, i as u128)) == key_level(k) + 1);
        }
        lemma_potential_uniform(pc, w);
        lemma_nine_pow_pos((d - 1) as nat);
        assert(leaf_weight(k) == 9 * w);
        assert(potential(pc) == 8 * w);
    } else {
        assert(pc.drop_last() =~= Seq::<u128>::empty());
        assert(potential(pc.drop_last()) == 0);
        assert(pc.last() == k);
        assert(potential(pc) == leaf_weight(k));
    }
}

proof fn lemma_refine_prefix_potential(ks: Seq<u128>, flags: Seq<bool>, m: int)
    requires
        all_cells(ks),
        flags.len() == ks.len(),
        0 <= m <= ks.len(),
    ensures
        potential(Seq::new(ks.len(), |i: int| refined_piece(ks[i], flags[i])).take(m).flatten()) <= potential(ks.take(m)),
        (exists|i: int| 0 <= i < m && #[trigger] flags[i] && key_level(ks[i]) < 32) ==>
            potential(Seq::new(ks.len(), |i: int| refined_piece(ks[i], flags[i])).take(m).flatten()) < potential(ks.take(m)),
    decreases m,
{
    let pieces = Seq::new(ks.len(), |i: int| refined_piece(ks[i], flags[i]));
    if m == 0 {
        assert(pieces.take(0) =~= Seq::<Seq<u128>>::empty());
        assert(pieces.take(0).flatten() =~= Seq::<u128>::empty());
        assert(ks.take(0) =~= Seq::<u128>::empty());
    } else {
        let p = m - 1;
        lemma_refine_prefix_potential(ks, flags, p);
        assert(pieces.take(m) =~= pieces.take(p).push(pieces[p]));
        pieces.take(p).lemma_flatten_push(pieces[p]);
        lemma_potential_concat(pieces.take(p).flatten(), pieces[p]);
        lemma_piece_potential(ks[p], flags[p]);
        assert(ks.take(m).drop_last() =~= ks.take(p));
        assert(ks.take(m).last() == ks[p]);
        if exists|i: int| 0 <= i < m && #[trigger] flags[i] && key_level(ks[i]) < 32 {
            let i = choose|i: int| 0 <= i < m && #[trigger] flags[i] && key_level(ks[i]) < 32;
            if i < p {
                assert(exists|i: int| 0 <= i < p && #[trigger] flags[i] && key_level(ks[i]) < 32);
            }
        }
    }
}

/// Refinement never increases the potential, and strictly decreases it when some flagged leaf
/// is below the finest level.
pub proof fn lemma_refine_potential(ks: Seq<u128>, flags: Seq<bool>)
    requires
        all_cells(ks),
        flags.len() == ks.len(),
    ensures
        potential(refine_seq(ks, flags)) <= potential(ks),
        (exists|i: int| 0 <= i < ks.len() && #[trigger] flags[i] && key_level(ks[i]) < 32) ==>
            potential(refine_seq(ks, flags)) < potential(ks),
{
    let pieces = Seq::new(ks.len(), |i: int| refined_piece(ks[i], flags[i]));
    lemma_refine_prefix_potential(ks, flags, ks.len() as int);
    assert(pieces.take(ks.len() as int) =~= pieces);
    assert(ks.take(ks.len() as int) =~= ks);
}

/// Coarsening marks that go with a refinement: the eight children of each refined leaf are
/// marked, every other leaf is not.
pub open spec fn piece_marks(k: u128, flag: bool) -> Seq<bool> {
    if flag && key_level(k) < 32 {
        Seq::new(8, |j: int| true)
    } else {
        seq![false]
    }
}

/// The marks of [`piece_marks`] for every leaf, aligned with [`refine_seq`].
pub open spec fn refine_marks(ks: Seq<u128>, flags: Seq<bool>) -> Seq<bool> {
    Seq::new(ks.len(), |i: int| piece_marks(ks[i], flags[i])).flatten()
}

#[verifier::spinoff_prover]
#[verifier::rlimit(40)]
proof fn lemma_coarsen_shift(a: Seq<u128>, b: Seq<u128>, ma: Seq<bool>, mb: Seq<bool>, i: int)
    requires
        ma.len() == a.len(),
        mb.len() == b.len(),
        0 <= i,
    ensures
        coarsen_from(a + b, ma + mb, a.len() + i) == coarsen_from(b, mb, i),
    decreases b.len() - i,
{
    let ab = a + b;
    let mab = ma + mb;
    let j = a.len() + i;
    if i < b.len() {
        assert(ab[j] == b[i]);
        assert(mab[j] == mb[i]);
        if i + 8 <= b.len() {
            let p = parent_raw(b[i]);
            assert(sibling_prefix(ab, mab, j, p, 8) == sibling_prefix(b, mb, i, p, 8)) by {
                if sibling_prefix(b, mb, i, p, 8) {
                    assert forall|k: int| j <= k < j + 8 implies #[trigger] ab[k] == child_raw(p, (k - j) as u128) && mab[k] by {
                        assert(ab[k] == b[k - a.len()]);
                        assert(mab[k] == mb[k - a.len()]);
                        assert(b[i + (k - j)] == child_raw(p, ((i + (k - j)) - i) as u128));
                    }
                }
                if sibling_prefix(ab, mab, j, p, 8) {
                    assert forall|k: int| i <= k < i + 8 implies #[trigger] b[k] == child_raw(p, (k - i) as u128) && mb[k] by {
                        assert(ab[k + a.len()] == b[k]);
                        assert(mab[k + a.len()] == mb[k]);
                        assert(ab[j + (k - i)] == child_raw(p, ((j + (k - i)) - j) as u128));
                    }
                }
            }
            lemma_coarsen_shift(a, b, ma, mb, i + 8);
        }
        assert(merge_at(ab, mab, j) == merge_at(b, mb, i));
        lemma_coarsen_shift(a, b, ma, mb, i + 1);
    }
}

proof fn lemma_coarsen_piece(k: u128, flag: bool, rest: Seq<u128>, mrest: Seq<bool>)
    requires
        key_is_cell(k),
        mrest.len() == rest.len(),
    ensures
        coarsen_from(refined_piece(k, flag) + rest, piece_marks(k, flag) + mrest, 0)
            == seq![k] + coarsen_from(rest, mrest, 0),
{
    let pc = refined_piece(k, flag);
    let mk = piece_marks(k, flag);
    let all = pc + rest;
    let mall = mk + mrest;
    lemma_coarsen_shift(pc, rest, mk, mrest, 0);
    if flag && key_level(k) < 32 {
        lemma_children_of_cell(k);
        let p = parent_raw(all[0]);
        assert(all[0] == child_raw(k, 0));
        assert(p == k);
        assert forall|q: int| 0 <= q < 8 implies #[trigger] all[q] == child_raw(p, (q - 0) as u128) && mall[q] by {
            assert(all[q] == pc[q]);
            assert(mall[q] == mk[q]);
        }
        assert(merge_at(all, mall, 0));
    } else {
        assert(all[0] == k);
        assert(!mall[0]);
    }
}

/// Coarsening exactly the children that a refinement created gives back the leaves before
/// the refinement.
pub proof fn lemma_coarsen_undoes_refine(ks: Seq<u128>, flags: Seq<bool>)
    requires
        all_cells(ks),
        flags.len() == ks.len(),
    ensures
        refine_marks(ks, flags).len() == refine_seq(ks, flags).len(),
        coarsen_from(refine_seq(ks, flags), refine_marks(ks, flags), 0) == ks,
    decreases ks.len(),
{
    let pieces = Seq::new(ks.len(), |i: int| refined_piece(ks[i], flags[i]));
    let marks = Seq::new(ks.len(), |i: int| piece_marks(ks[i], flags[i]));
    if ks.len() == 0 {
        assert(refine_seq(ks, flags) =~= Seq::<u128>::empty());
        assert(refine_marks(ks, flags) =~= Seq::<bool>::empty());
        assert(coarsen_from(refine_seq(ks, flags), refine_marks(ks, flags), 0) =~= ks);
    } else {
        let ks1 = ks.drop_first();
        let f1 = flags.drop_first();
        lemma_coarsen_undoes_refine(ks1, f1);
        assert(pieces.drop_first() =~= Seq::new(ks1.len(), |i: int| refined_piece(ks1[i], f1[i])));
        assert(marks.drop_first() =~= Seq::new(ks1.len(), |i: int| piece_marks(ks1[i], f1[i])));
        assert(refine_seq(ks, flags) == pieces.first() + refine_seq(ks1, f1));
        assert(refine_marks(ks, flags) == marks.first() + refine_marks(ks1, f1));
        assert(key_is_cell(ks[0]));
        lemma_coarsen_piece(ks[0], flags[0], refine_seq(ks1, f1), refine_marks(ks1, f1));
        assert(seq![ks[0]] + ks1 =~= ks);
    }
}

/// Number of flagged leaves that a refinement splits (those below [`MAX_LEVEL`]).
pub open spec fn split_count(ks: Seq<u128>, flags: Seq<bool>) -> nat
    decreases ks.len(),
{
    if ks.len() == 0 {
        0
    } else {
        split_count(ks.drop_first(), flags.drop_first()) + (if flags[0] && key_level(ks[0]) < 32 { 1nat } else { 0nat })
    }
}

/// A refinement adds seven leaves for every leaf it splits.
pub proof fn lemma_refine_count(ks: Seq<u128>, flags: Seq<bool>)
    requires
        flags.len() == ks.len(),
    ensures
        refine_seq(ks, flags).len() == ks.len() + 7 * split_count(ks, flags),
    decreases ks.len(),
{
    let pieces = Seq::new(ks.len(), |i: int| refined_piece(ks[i], flags[i]));
    if ks.len() == 0 {
        assert(refine_seq(ks, flags) =~= Seq::<u128>::empty());
    } else {
        let ks1 = ks.drop_first();
        let f1 = flags.drop_first();
        lemma_refine_count(ks1, f1);
        assert(pieces.drop_first() =~= Seq::new(ks1.len(), |i: int| refined_piece(ks1[i], f1[i])));
        assert(refine_seq(ks, flags) == pieces.first() + refine_seq(ks1, f1));
    }
}

proof fn lemma_marks_none(ks: Seq<u128>, flags: Seq<bool>)
    requires
        flags.len() == ks.len(),
        forall|j: int| 0 <= j < flags.len() ==> !#[trigger] flags[j],
    ensures
        refine_marks(ks, flags) == Seq::new(ks.len(), |j: int| false),
    decreases ks.len(),
{
    let marks = Seq::new(ks.len(), |i: int| piece_marks(ks[i], flags[i]));
    if ks.len() == 0 {
        assert(refine_marks(ks, flags) =~= Seq::new(ks.len(), |j: int| false));
    } else {
        let ks1 = ks.drop_first();
        let f1 = flags.drop_first();
        assert forall|j: int| 0 <= j < f1.len() implies !#[trigger] f1[j] by {
            assert(f1[j] == flags[j + 1]);
        }
        lemma_marks_none(ks1, f1);
        assert(marks.drop_first() =~= Seq::new(ks1.len(), |i: int| piece_marks(ks1[i], f1[i])));
        assert(refine_marks(ks, flags) == marks.first() + refine_marks(ks1, f1));
        assert(!flags[0]);
        assert(refine_marks(ks, flags) =~= Seq::new(ks.len(), |j: int| false));
    }
}

proof fn lemma_marks_single(ks: Seq<u128>, flags: Seq<bool>, i: int)
    requires
        flags.len() == ks.len(),
        0 <= i < ks.len(),
        key_level(ks[i]) < 32,
        forall|j: int| 0 <= j < flags.len() ==> #[trigger] flags[j] == (j == i),
    ensures
        refine_marks(ks, flags) == Seq::new((ks.len() + 7) as nat, |j: int| i <= j < i + 8),
    decreases ks.len(),
{
    let marks = Seq::new(ks.len(), |q: int| piece_marks(ks[q], flags[q]));
    let ks1 = ks.drop_first();
    let f1 = flags.drop_first();
    assert(marks.drop_first() =~= Seq::new(ks1.len(), |q: int| piece_marks(ks1[q], f1[q])));
    assert(refine_marks(ks, flags) == marks.first() + refine_marks(ks1, f1));
    if i == 0 {
        assert forall|j: int| 0 <= j < f1.len() implies !#[trigger] f1[j] by {
            assert(f1[j] == flags[j + 1]);
        }
        lemma_marks_none(ks1, f1);
        assert(marks.first() == Seq::new(8, |j: int| true));
        assert(refine_marks(ks, flags) =~= Seq::new((ks.len() + 7) as nat, |j: int| i <= j < i + 8));
    } else {
        assert forall|j: int| 0 <= j < f1.len() implies #[trigger] f1[j] == (j == i - 1) by {
            assert(f1[j] == flags[j + 1]);
        }
        assert(ks1[i - 1] == ks[i]);
        lemma_marks_single(ks1, f1, i - 1);
        assert(!flags[0]);
        assert(marks.first() == seq![false]);
        assert(refine_marks(ks, flags) =~= Seq::new((ks.len() + 7) as nat, |j: int| i <= j < i + 8));
    }
}

/// Refining one leaf and then coarsening the eight leaves that took its place gives back the
/// leaves before the refinement.
pub proof fn lemma_coarsen_undoes_one_refine(ks: Seq<u128>, i: int)
    requires
        all_cells(ks),
        0 <= i < ks.len(),
        key_level(ks[i]) < 32,
    ensures
        coarsen_from(
            refine_seq(ks, Seq::new(ks.len(), |j: int| j == i)),
            Seq::new((ks.len() + 7) as nat, |j: int| i <= j < i + 8),
            0,
        ) == ks,
        refine_seq(ks, Seq::new(ks.len(), |j: int| j == i)).len() == ks.len() + 7,
{
    let f = Seq::new(ks.len(), |j: int| j == i);
    lemma_marks_single(ks, f, i);
    lemma_coarsen_undoes_refine(ks, f);
}

} // verus!
