//! Face topology of a forest for CFD export: interior faces between leaves, recorded once on
//! the plus side of each axis, and faces on the domain boundary.

use vstd::prelude::*;
use crate::enums::{Axis, Direction, direction_of};
use crate::forest::Forest;
use crate::neighbour::{face_neighbours, grid_addressable, distinct_found, cell_face_points, leaf_at_point};
use crate::key::cell_of_key;

verus! {

/// Combined face topology in struct-of-arrays layout.
///
/// Interior faces carry an owner leaf, a neighbour leaf on the plus side of `axis`, and the
/// axis; domain boundary faces carry the owner leaf and the outward direction.
pub struct FaceTopology {
    pub internal_faces_owner: Vec<usize>,
    pub internal_faces_neighbour: Vec<usize>,
    pub internal_faces_axis: Vec<Axis>,
    pub domain_bnd_faces_owner: Vec<usize>,
    pub domain_bnd_faces_dir: Vec<Direction>,
}

/// The parallel arrays have matching lengths and every neighbour index names a leaf.
pub open spec fn topology_shaped(ks: Seq<u128>, t: FaceTopology) -> bool {
    &&& t.internal_faces_neighbour@.len() == t.internal_faces_owner@.len()
    &&& t.internal_faces_axis@.len() == t.internal_faces_owner@.len()
    &&& t.domain_bnd_faces_dir@.len() == t.domain_bnd_faces_owner@.len()
    &&& forall|f: int| 0 <= f < t.internal_faces_neighbour@.len() ==> #[trigger] t.internal_faces_neighbour@[f] < ks.len()
}

/// Interior faces as records `(owner index, neighbour key, axis)`.
pub open spec fn internal_records(ks: Seq<u128>, t: FaceTopology) -> Seq<(int, u128, Axis)> {
    Seq::new(
        t.internal_faces_owner@.len(),
        |f: int| (t.internal_faces_owner@[f] as int, ks[t.internal_faces_neighbour@[f] as int], t.internal_faces_axis@[f]),
    )
}

/// Boundary faces as records `(owner index, outward direction)`.
pub open spec fn bnd_records(t: FaceTopology) -> Seq<(int, Direction)> {
    Seq::new(t.domain_bnd_faces_owner@.len(), |f: int| (t.domain_bnd_faces_owner@[f] as int, t.domain_bnd_faces_dir@[f]))
}

/// Boundary faces of leaf `i` along `a`: each side of the axis without a face neighbour,
/// minus side first.
pub open spec fn axis_bnd_faces(ks: Seq<u128>, g: [u32; 3], i: int, a: Axis) -> Seq<(int, Direction)> {
    let m = direction_of(a, false);
    let p = direction_of(a, true);
    (if face_neighbours(ks, g, ks[i], m).len() == 0 { seq![(i, m)] } else { Seq::empty() })
        + (if face_neighbours(ks, g, ks[i], p).len() == 0 { seq![(i, p)] } else { Seq::empty() })
}

/// Interior faces owned by leaf `i` along `a`: one per face neighbour on the plus side.
pub open spec fn axis_internal_faces(ks: Seq<u128>, g: [u32; 3], i: int, a: Axis) -> Seq<(int, u128, Axis)> {
    face_neighbours(ks, g, ks[i], direction_of(a, true)).map_values(|k: u128| (i, k, a))
}

/// Boundary faces of leaf `i`, axes in the order X, Y, Z.
pub open spec fn cell_bnd_faces(ks: Seq<u128>, g: [u32; 3], i: int) -> Seq<(int, Direction)> {
    axis_bnd_faces(ks, g, i, Axis::X) + axis_bnd_faces(ks, g, i, Axis::Y) + axis_bnd_faces(ks, g, i, Axis::Z)
}

/// Interior faces owned by leaf `i`, axes in the order X, Y, Z.
pub open spec fn cell_internal_faces(ks: Seq<u128>, g: [u32; 3], i: int) -> Seq<(int, u128, Axis)> {
    axis_internal_faces(ks, g, i, Axis::X) + axis_internal_faces(ks, g, i, Axis::Y) + axis_internal_faces(ks, g, i, Axis::Z)
}

/// Boundary faces of the first `n` leaves, in leaf order.
pub open spec fn bnd_faces(ks: Seq<u128>, g: [u32; 3], n: nat) -> Seq<(int, Direction)>
    decreases n,
{
    if n == 0 {
        Seq::empty()
    } else {
        bnd_faces(ks, g, (n - 1) as nat) + cell_bnd_faces(ks, g, n - 1)
    }
}

/// Interior faces of the first `n` leaves, in leaf order.
pub open spec fn internal_faces(ks: Seq<u128>, g: [u32; 3], n: nat) -> Seq<(int, u128, Axis)>
    decreases n,
{
    if n == 0 {
        Seq::empty()
    } else {
        internal_faces(ks, g, (n - 1) as nat) + cell_internal_faces(ks, g, n - 1)
    }
}

impl FaceTopology {
    /// An empty topology.
    pub fn new() -> (r: Self)
        ensures
            r.internal_faces_owner@ == Seq::<usize>::empty(),
            r.internal_faces_neighbour@ == Seq::<usize>::empty(),
            r.internal_faces_axis@ == Seq::<Axis>::empty(),
            r.domain_bnd_faces_owner@ == Seq::<usize>::empty(),
            r.domain_bnd_faces_dir@ == Seq::<Direction>::empty(),
    {
        FaceTopology {
            internal_faces_owner: Vec::new(),
            internal_faces_neighbour: Vec::new(),
            internal_faces_axis: Vec::new(),
            domain_bnd_faces_owner: Vec::new(),
            domain_bnd_faces_dir: Vec::new(),
        }
    }

    /// Appends a boundary face.
    fn push_bnd(&mut self, owner: usize, dir: Direction)
        ensures
            final(self).internal_faces_owner@ == old(self).internal_faces_owner@,
            final(self).internal_faces_neighbour@ == old(self).internal_faces_neighbour@,
            final(self).internal_faces_axis@ == old(self).internal_faces_axis@,
            final(self).domain_bnd_faces_owner@ == old(self).domain_bnd_faces_owner@.push(owner),
            final(self).domain_bnd_faces_dir@ == old(self).domain_bnd_faces_dir@.push(dir),
    {
        self.domain_bnd_faces_owner.push(owner);
        self.domain_bnd_faces_dir.push(dir);
    }

    /// Appends an interior face.
    fn push_internal(&mut self, owner: usize, neighbour: usize, axis: Axis)
        ensures
            final(self).internal_faces_owner@ == old(self).internal_faces_owner@.push(owner),
            final(self).internal_faces_neighbour@ == old(self).internal_faces_neighbour@.push(neighbour),
            final(self).internal_faces_axis@ == old(self).internal_faces_axis@.push(axis),
            final(self).domain_bnd_faces_owner@ == old(self).domain_bnd_faces_owner@,
            final(self).domain_bnd_faces_dir@ == old(self).domain_bnd_faces_dir@,
    {
        self.internal_faces_owner.push(owner);
        self.internal_faces_neighbour.push(neighbour);
        self.internal_faces_axis.push(axis);
    }
}

proof fn lemma_push_bnd(ks: Seq<u128>, t0: FaceTopology, t1: FaceTopology, owner: usize, dir: Direction)
    requires
        topology_shaped(ks, t0),
        t1.internal_faces_owner@ == t0.internal_faces_owner@,
        t1.internal_faces_neighbour@ == t0.internal_faces_neighbour@,
        t1.internal_faces_axis@ == t0.internal_faces_axis@,
        t1.domain_bnd_faces_owner@ == t0.domain_bnd_faces_owner@.push(owner),
        t1.domain_bnd_faces_dir@ == t0.domain_bnd_faces_dir@.push(dir),
    ensures
        topology_shaped(ks, t1),
        internal_records(ks, t1) == internal_records(ks, t0),
        bnd_records(t1) == bnd_records(t0).push((owner as int, dir)),
{
    assert(internal_records(ks, t1) =~= internal_records(ks, t0));
    assert(bnd_records(t1) =~= bnd_records(t0).push((owner as int, dir)));
}

proof fn lemma_push_internal(ks: Seq<u128>, t0: FaceTopology, t1: FaceTopology, owner: usize, neighbour: usize, axis: Axis)
    requires
        topology_shaped(ks, t0),
        neighbour < ks.len(),
        t1.internal_faces_owner@ == t0.internal_faces_owner@.push(owner),
        t1.internal_faces_neighbour@ == t0.internal_faces_neighbour@.push(neighbour),
        t1.internal_faces_axis@ == t0.internal_faces_axis@.push(axis),
        t1.domain_bnd_faces_owner@ == t0.domain_bnd_faces_owner@,
        t1.domain_bnd_faces_dir@ == t0.domain_bnd_faces_dir@,
    ensures
        topology_shaped(ks, t1),
        internal_records(ks, t1) == internal_records(ks, t0).push((owner as int, ks[neighbour as int], axis)),
        bnd_records(t1) == bnd_records(t0),
{
    assert forall|f: int| 0 <= f < t1.internal_faces_neighbour@.len() implies #[trigger] t1.internal_faces_neighbour@[f] < ks.len() by {
        if f < t0.internal_faces_neighbour@.len() {
            assert(t1.internal_faces_neighbour@[f] == t0.internal_faces_neighbour@[f]);
        }
    }
    assert(internal_records(ks, t1) =~= internal_records(ks, t0).push((owner as int, ks[neighbour as int], axis)));
    assert(bnd_records(t1) =~= bnd_records(t0));
}

impl Forest {
    /// Appends the faces of leaf `global_id` along `axis`: a boundary face for each side
    /// without a neighbour, and one interior face per neighbour on the plus side.
    fn push_axis_faces(&self, global_id: usize, axis: Axis, t: &mut FaceTopology)
        requires
            global_id < self.key_seq().len(),
            grid_addressable(self.grid()),
            topology_shaped(self.key_seq(), *old(t)),
        ensures
            topology_shaped(self.key_seq(), *final(t)),
            internal_records(self.key_seq(), *final(t)) == internal_records(self.key_seq(), *old(t))
                + axis_internal_faces(self.key_seq(), self.grid(), global_id as int, axis),
            bnd_records(*final(t)) == bnd_records(*old(t)) + axis_bnd_faces(self.key_seq(), self.grid(), global_id as int, axis),
    {
        let ghost ks = self.key_seq();
        let ghost g = self.grid();
        let ghost i = global_id as int;
        let ghost t0 = *t;
        let (dir_minus, dir_plus) = axis.split_into_directions();
        let minus_nbrs = self.face_neighbour_global_ids(global_id, dir_minus);
        let ghost bnd_minus: Seq<(int, Direction)> =
            if minus_nbrs.len() == 0 { seq![(i, dir_minus)] } else { Seq::empty() };
        if minus_nbrs.len() == 0 {
            let ghost before = *t;
            t.push_bnd(global_id, dir_minus);
            proof {
                lemma_push_bnd(ks, before, *t, global_id, dir_minus);
            }
        }
        assert(bnd_records(*t) == bnd_records(t0) + bnd_minus);
        assert(internal_records(ks, *t) == internal_records(ks, t0));
        let plus_nbrs = self.face_neighbour_global_ids(global_id, dir_plus);
        let ghost fnb = face_neighbours(ks, g, ks[i], dir_plus);
        if plus_nbrs.len() == 0 {
            let ghost before = *t;
            t.push_bnd(global_id, dir_plus);
            proof {
                lemma_push_bnd(ks, before, *t, global_id, dir_plus);
                assert(bnd_records(*t) =~= bnd_records(t0) + axis_bnd_faces(ks, g, i, axis));
                assert(axis_internal_faces(ks, g, i, axis) =~= Seq::<(int, u128, Axis)>::empty());
                assert(internal_records(ks, *t) =~= internal_records(ks, t0) + axis_internal_faces(ks, g, i, axis));
            }
        } else {
            let ghost t1 = *t;
            let mut j: usize = 0;
            while j < plus_nbrs.len()
                invariant
                    ks == self.key_seq(),
                    g == self.grid(),
                    i == global_id,
                    fnb == face_neighbours(ks, g, ks[i], dir_plus),
                    plus_nbrs@.len() == fnb.len(),
                    forall|q: int| 0 <= q < plus_nbrs@.len() ==> #[trigger] plus_nbrs@[q] < ks.len() && ks[plus_nbrs@[q] as int] == fnb[q],
                    j <= plus_nbrs@.len(),
                    topology_shaped(ks, *t),
                    bnd_records(*t) == bnd_records(t1),
                    internal_records(ks, *t) == internal_records(ks, t1) + fnb.take(j as int).map_values(|k: u128| (i, k, axis)),
                decreases plus_nbrs@.len() - j,
            {
                let nbr_id = plus_nbrs[j];
                let ghost before = *t;
                t.push_internal(global_id, nbr_id, axis);
                proof {
                    lemma_push_internal(ks, before, *t, global_id, nbr_id, axis);
                    assert(fnb.take(j + 1).map_values(|k: u128| (i, k, axis))
                        =~= fnb.take(j as int).map_values(|k: u128| (i, k, axis)).push((i, ks[nbr_id as int], axis)));
                }
                j = j + 1;
            }
            proof {
                assert(fnb.take(fnb.len() as int) =~= fnb);
                assert(bnd_records(*t) =~= bnd_records(t0) + axis_bnd_faces(ks, g, i, axis));
            }
        }
    }

    /// Appends all faces of leaf `global_id`, axes in the order X, Y, Z.
    fn push_cell_faces(&self, global_id: usize, t: &mut FaceTopology)
        requires
            global_id < self.key_seq().len(),
            grid_addressable(self.grid()),
            topology_shaped(self.key_seq(), *old(t)),
        ensures
            topology_shaped(self.key_seq(), *final(t)),
            internal_records(self.key_seq(), *final(t)) == internal_records(self.key_seq(), *old(t))
                + cell_internal_faces(self.key_seq(), self.grid(), global_id as int),
            bnd_records(*final(t)) == bnd_records(*old(t)) + cell_bnd_faces(self.key_seq(), self.grid(), global_id as int),
    {
        let ghost ks = self.key_seq();
        let ghost g = self.grid();
        let ghost i = global_id as int;
        let ghost t0 = *t;
        self.push_axis_faces(global_id, Axis::X, t);
        self.push_axis_faces(global_id, Axis::Y, t);
        self.push_axis_faces(global_id, Axis::Z, t);
        proof {
            assert(internal_records(ks, *t) =~= internal_records(ks, t0) + cell_internal_faces(ks, g, i));
            assert(bnd_records(*t) =~= bnd_records(t0) + cell_bnd_faces(ks, g, i));
        }
    }

    /// Face topology of all leaves, merged in leaf order: interior faces on the plus side of
    /// each axis (so each shared face is recorded from one side) and domain boundary faces.
    pub fn face_topology(&self) -> (r: FaceTopology)
        requires
            grid_addressable(self.grid()),
        ensures
            topology_shaped(self.key_seq(), r),
            internal_records(self.key_seq(), r) == internal_faces(self.key_seq(), self.grid(), self.key_seq().len()),
            bnd_records(r) == bnd_faces(self.key_seq(), self.grid(), self.key_seq().len()),
    {
        let ghost ks = self.key_seq();
        let ghost g = self.grid();
        let n = self.num_cells();
        let mut t = FaceTopology::new();
        proof {
            assert(internal_records(ks, t) =~= internal_faces(ks, g, 0));
            assert(bnd_records(t) =~= bnd_faces(ks, g, 0));
        }
        let mut i: usize = 0;
        while i < n
            invariant
                ks == self.key_seq(),
                g == self.grid(),
                grid_addressable(g),
                n == ks.len(),
                i <= n,
                topology_shaped(ks, t),
                internal_records(ks, t) == internal_faces(ks, g, i as nat),
                bnd_records(t) == bnd_faces(ks, g, i as nat),
            decreases n - i,
        {
            self.push_cell_faces(i, &mut t);
            i = i + 1;
        }
        t
    }
}

proof fn lemma_cell_internal(ks: Seq<u128>, g: [u32; 3], c: int)
    ensures
        forall|h: int| 0 <= h < cell_internal_faces(ks, g, c).len() ==> {
            let rec = #[trigger] cell_internal_faces(ks, g, c)[h];
            &&& rec.0 == c
            &&& face_neighbours(ks, g, ks[c], direction_of(rec.2, true)).contains(rec.1)
        },
        forall|a: Axis, k: u128| #[trigger] face_neighbours(ks, g, ks[c], direction_of(a, true)).contains(k)
            ==> cell_internal_faces(ks, g, c).contains((c, k, a)),
{
    let ci = cell_internal_faces(ks, g, c);
    let lx = axis_internal_faces(ks, g, c, Axis::X).len();
    let ly = axis_internal_faces(ks, g, c, Axis::Y).len();
    assert forall|h: int| 0 <= h < ci.len() implies {
        let rec = #[trigger] ci[h];
        &&& rec.0 == c
        &&& face_neighbours(ks, g, ks[c], direction_of(rec.2, true)).contains(rec.1)
    } by {
        if h < lx {
            let fnb = face_neighbours(ks, g, ks[c], direction_of(Axis::X, true));
            assert(ci[h] == (c, fnb[h], Axis::X));
            assert(fnb.contains(fnb[h]));
        } else if h < lx + ly {
            let fnb = face_neighbours(ks, g, ks[c], direction_of(Axis::Y, true));
            assert(ci[h] == (c, fnb[h - lx], Axis::Y));
            assert(fnb.contains(fnb[h - lx]));
        } else {
            let fnb = face_neighbours(ks, g, ks[c], direction_of(Axis::Z, true));
            assert(ci[h] == (c, fnb[h - lx - ly], Axis::Z));
            assert(fnb.contains(fnb[h - lx - ly]));
        }
    }
    assert forall|a: Axis, k: u128| #[trigger] face_neighbours(ks, g, ks[c], direction_of(a, true)).contains(k)
        implies ci.contains((c, k, a)) by {
        let fnb = face_neighbours(ks, g, ks[c], direction_of(a, true));
        let q = choose|q: int| 0 <= q < fnb.len() && fnb[q] == k;
        let off: int = match a {
            Axis::X => 0,
            Axis::Y => lx as int,
            Axis::Z => (lx + ly) as int,
        };
        assert(axis_internal_faces(ks, g, c, a)[q] == (c, k, a));
        assert(ci[off + q] == (c, k, a));
    }
}

proof fn lemma_cell_bnd(ks: Seq<u128>, g: [u32; 3], c: int)
    ensures
        forall|h: int| 0 <= h < cell_bnd_faces(ks, g, c).len() ==> {
            let rec = #[trigger] cell_bnd_faces(ks, g, c)[h];
            &&& rec.0 == c
            &&& face_neighbours(ks, g, ks[c], rec.1).len() == 0
        },
        forall|a: Axis, p: bool| #[trigger] face_neighbours(ks, g, ks[c], direction_of(a, p)).len() == 0
            ==> cell_bnd_faces(ks, g, c).contains((c, direction_of(a, p))),
{
    let cb = cell_bnd_faces(ks, g, c);
    let bx = axis_bnd_faces(ks, g, c, Axis::X);
    let by = axis_bnd_faces(ks, g, c, Axis::Y);
    assert forall|h: int| 0 <= h < cb.len() implies {
        let rec = #[trigger] cb[h];
        &&& rec.0 == c
        &&& face_neighbours(ks, g, ks[c], rec.1).len() == 0
    } by {
        if h < bx.len() {
            assert(cb[h] == bx[h]);
        } else if h < bx.len() + by.len() {
            assert(cb[h] == by[h - bx.len()]);
        } else {
            assert(cb[h] == axis_bnd_faces(ks, g, c, Axis::Z)[h - bx.len() - by.len()]);
        }
    }
    assert forall|a: Axis, p: bool| #[trigger] face_neighbours(ks, g, ks[c], direction_of(a, p)).len() == 0
        implies cb.contains((c, direction_of(a, p))) by {
        let ba = axis_bnd_faces(ks, g, c, a);
        let off: int = match a {
            Axis::X => 0,
            Axis::Y => bx.len() as int,
            Axis::Z => (bx.len() + by.len()) as int,
        };
        let mlen: int = if face_neighbours(ks, g, ks[c], direction_of(a, false)).len() == 0 { 1 } else { 0 };
        let q: int = if p { mlen } else { 0 };
        assert(ba[q] == (c, direction_of(a, p)));
        assert(cb[off + q] == ba[q]);
    }
}

/// Every recorded interior face is a true face and every true face is recorded: a record
/// `(o, k, a)` names a leaf `k` touching the plus face of leaf `o` along `a`, and every leaf
/// touching the plus face of one of the first `n` leaves appears as such a record.
pub proof fn lemma_internal_faces_exact(ks: Seq<u128>, g: [u32; 3], n: nat)
    ensures
        forall|f: int| 0 <= f < internal_faces(ks, g, n).len() ==> {
            let rec = #[trigger] internal_faces(ks, g, n)[f];
            &&& 0 <= rec.0 < n
            &&& face_neighbours(ks, g, ks[rec.0], direction_of(rec.2, true)).contains(rec.1)
        },
        forall|o: int, a: Axis, k: u128|
            0 <= o < n && #[trigger] face_neighbours(ks, g, ks[o], direction_of(a, true)).contains(k)
                ==> internal_faces(ks, g, n).contains((o, k, a)),
    decreases n,
{
    if n > 0 {
        let m = (n - 1) as nat;
        let c = n - 1;
        lemma_internal_faces_exact(ks, g, m);
        lemma_cell_internal(ks, g, c);
        let prev = internal_faces(ks, g, m);
        let ci = cell_internal_faces(ks, g, c);
        let all = internal_faces(ks, g, n);
        assert(all == prev + ci);
        assert forall|f: int| 0 <= f < all.len() implies {
            let rec = #[trigger] all[f];
            &&& 0 <= rec.0 < n
            &&& face_neighbours(ks, g, ks[rec.0], direction_of(rec.2, true)).contains(rec.1)
        } by {
            if f < prev.len() {
                assert(all[f] == prev[f]);
            } else {
                assert(all[f] == ci[f - prev.len()]);
            }
        }
        assert forall|o: int, a: Axis, k: u128|
            0 <= o < n && #[trigger] face_neighbours(ks, g, ks[o], direction_of(a, true)).contains(k)
                implies all.contains((o, k, a)) by {
            if o < c {
                let w = choose|w: int| 0 <= w < prev.len() && prev[w] == (o, k, a);
                assert(all[w] == (o, k, a));
            } else {
                let w = choose|w: int| 0 <= w < ci.len() && ci[w] == (o, k, a);
                assert(all[prev.len() + w] == (o, k, a));
            }
        }
    }
}

/// Every recorded boundary face is a true boundary face and every one is recorded: a record
/// `(o, d)` names a face `d` of leaf `o` that touches no leaf, and every such face of the first
/// `n` leaves appears.
pub proof fn lemma_bnd_faces_exact(ks: Seq<u128>, g: [u32; 3], n: nat)
    ensures
        forall|f: int| 0 <= f < bnd_faces(ks, g, n).len() ==> {
            let rec = #[trigger] bnd_faces(ks, g, n)[f];
            &&& 0 <= rec.0 < n
            &&& face_neighbours(ks, g, ks[rec.0], rec.1).len() == 0
        },
        forall|o: int, a: Axis, p: bool|
            0 <= o < n && #[trigger] face_neighbours(ks, g, ks[o], direction_of(a, p)).len() == 0
                ==> bnd_faces(ks, g, n).contains((o, direction_of(a, p))),
    decreases n,
{
    if n > 0 {
        let m = (n - 1) as nat;
        let c = n - 1;
        lemma_bnd_faces_exact(ks, g, m);
        lemma_cell_bnd(ks, g, c);
        let prev = bnd_faces(ks, g, m);
        let cb = cell_bnd_faces(ks, g, c);
        let all = bnd_faces(ks, g, n);
        assert(all == prev + cb);
        assert forall|f: int| 0 <= f < all.len() implies {
            let rec = #[trigger] all[f];
            &&& 0 <= rec.0 < n
            &&& face_neighbours(ks, g, ks[rec.0], rec.1).len() == 0
        } by {
            if f < prev.len() {
                assert(all[f] == prev[f]);
            } else {
                assert(all[f] == cb[f - prev.len()]);
            }
        }
        assert forall|o: int, a: Axis, p: bool|
            0 <= o < n && #[trigger] face_neighbours(ks, g, ks[o], direction_of(a, p)).len() == 0
                implies all.contains((o, direction_of(a, p))) by {
            if o < c {
                let w = choose|w: int| 0 <= w < prev.len() && prev[w] == (o, direction_of(a, p));
                assert(all[w] == (o, direction_of(a, p)));
            } else {
                let w = choose|w: int| 0 <= w < cb.len() && cb[w] == (o, direction_of(a, p));
                assert(all[prev.len() + w] == (o, direction_of(a, p)));
            }
        }
    }
}

proof fn lemma_distinct_found_unique(found: Seq<Option<u128>>)
    ensures
        distinct_found(found).no_duplicates(),
    decreases found.len(),
{
    if found.len() > 0 {
        lemma_distinct_found_unique(found.drop_last());
        let prev = distinct_found(found.drop_last());
        match found.last() {
            Some(k) => {
                if !prev.contains(k) {
                    let nxt = prev.push(k);
                    assert forall|p: int, q: int| 0 <= p < nxt.len() && 0 <= q < nxt.len() && p != q implies nxt[p] != nxt[q] by {
                        if p < prev.len() && q < prev.len() {
                        } else if p == prev.len() {
                            assert(nxt[q] == prev[q]);
                        } else {
                            assert(nxt[p] == prev[p]);
                        }
                    }
                }
            },
            None => {},
        }
    }
}

proof fn lemma_face_neighbours_unique(ks: Seq<u128>, g: [u32; 3], raw: u128, d: Direction)
    ensures
        face_neighbours(ks, g, raw, d).no_duplicates(),
{
    let cell = cell_of_key(raw);
    let pts = cell_face_points(cell, d);
    lemma_distinct_found_unique(Seq::new(4, |i: int| leaf_at_point(ks, g, cell.tree_id, pts[i])));
}

proof fn lemma_cell_internal_unique(ks: Seq<u128>, g: [u32; 3], c: int)
    ensures
        cell_internal_faces(ks, g, c).no_duplicates(),
{
    let ci = cell_internal_faces(ks, g, c);
    let lx = axis_internal_faces(ks, g, c, Axis::X).len();
    let ly = axis_internal_faces(ks, g, c, Axis::Y).len();
    lemma_face_neighbours_unique(ks, g, ks[c], direction_of(Axis::X, true));
    lemma_face_neighbours_unique(ks, g, ks[c], direction_of(Axis::Y, true));
    lemma_face_neighbours_unique(ks, g, ks[c], direction_of(Axis::Z, true));
    assert forall|p: int, q: int| 0 <= p < ci.len() && 0 <= q < ci.len() && p != q implies ci[p] != ci[q] by {
        let fx = face_neighbours(ks, g, ks[c], direction_of(Axis::X, true));
        let fy = face_neighbours(ks, g, ks[c], direction_of(Axis::Y, true));
        let fz = face_neighbours(ks, g, ks[c], direction_of(Axis::Z, true));
        if p < lx {
            assert(ci[p] == (c, fx[p], Axis::X));
        } else if p < lx + ly {
            assert(ci[p] == (c, fy[p - lx], Axis::Y));
        } else {
            assert(ci[p] == (c, fz[p - lx - ly], Axis::Z));
        }
        if q < lx {
            assert(ci[q] == (c, fx[q], Axis::X));
        } else if q < lx + ly {
            assert(ci[q] == (c, fy[q - lx], Axis::Y));
        } else {
            assert(ci[q] == (c, fz[q - lx - ly], Axis::Z));
        }
    }
}

/// Each interior face is recorded once: no record `(owner, neighbour, axis)` repeats.
pub proof fn lemma_internal_faces_once(ks: Seq<u128>, g: [u32; 3], n: nat)
    ensures
        internal_faces(ks, g, n).no_duplicates(),
    decreases n,
{
    if n > 0 {
        let m = (n - 1) as nat;
        let c = n - 1;
        lemma_internal_faces_once(ks, g, m);
        lemma_internal_faces_exact(ks, g, m);
        lemma_cell_internal(ks, g, c);
        lemma_cell_internal_unique(ks, g, c);
        let prev = internal_faces(ks, g, m);
        let ci = cell_internal_faces(ks, g, c);
        let all = internal_faces(ks, g, n);
        assert(all == prev + ci);
        assert forall|p: int, q: int| 0 <= p < all.len() && 0 <= q < all.len() && p != q implies all[p] != all[q] by {
            if p < prev.len() && q < prev.len() {
                assert(all[p] == prev[p] && all[q] == prev[q]);
            } else if p >= prev.len() && q >= prev.len() {
                assert(all[p] == ci[p - prev.len()] && all[q] == ci[q - prev.len()]);
            } else if p < prev.len() {
                assert(all[p] == prev[p] && all[q] == ci[q - prev.len()]);
                assert(prev[p].0 < c);
            } else {
                assert(all[q] == prev[q] && all[p] == ci[p - prev.len()]);
                assert(prev[q].0 < c);
            }
        }
    }
}

} // verus!
