//! Cell classification and BFS flood fill for fluid/solid labeling.

use vstd::prelude::*;
use std::collections::VecDeque;
use crate::enums::Direction;
use crate::forest::Forest;
use crate::neighbour::{face_neighbours, grid_addressable};
use crate::query::{strictly_sorted, lemma_leaves_strictly_sorted};

verus! {

/// Cell state used by the immersed-boundary classification pipeline.
#[derive(Debug, Clone, Copy, PartialEq, Eq, Structural)]
pub enum CellType {
    /// Fluid region (active in flow computation).
    Fluid,
    /// Solid region (excluded from flow computation).
    Solid,
    /// Cell geometrically intersecting the boundary.
    Intersect,
}

/// Why a flood fill could not start.
#[derive(Debug, Clone, Copy, PartialEq, Eq, Structural)]
pub enum FloodFillError {
    /// The seed point lies outside the computational domain.
    SeedOutsideDomain,
    /// The seed point lies on an intersect (wall) cell.
    SeedOnIntersect,
}

impl FloodFillError {
    /// Human-readable explanation of the error.
    pub fn message(&self) -> (r: &'static str)
        ensures
            *self == FloodFillError::SeedOutsideDomain ==> r@ == "The fluid seed point `fluid_seed_point` lies outside the computational domain (bounding box)."@,
            *self == FloodFillError::SeedOnIntersect ==> r@ == "The fluid seed point `fluid_seed_point` lies on an intersect (wall) cell; specify a seed clearly inside the fluid region."@,
    {
        match self {
            FloodFillError::SeedOutsideDomain => "The fluid seed point `fluid_seed_point` lies outside the computational domain (bounding box).",
            FloodFillError::SeedOnIntersect => "The fluid seed point `fluid_seed_point` lies on an intersect (wall) cell; specify a seed clearly inside the fluid region.",
        }
    }
}

/// The six face directions in the order `XMinus, XPlus, YMinus, YPlus, ZMinus, ZPlus`.
pub open spec fn dir_at(k: int) -> Direction {
    if k == 0 {
        Direction::XMinus
    } else if k == 1 {
        Direction::XPlus
    } else if k == 2 {
        Direction::YMinus
    } else if k == 3 {
        Direction::YPlus
    } else if k == 4 {
        Direction::ZMinus
    } else {
        Direction::ZPlus
    }
}

/// `d` is one of the six enumerated directions.
pub open spec fn enumerated(d: Direction) -> bool {
    exists|k: int| 0 <= k < 6 && #[trigger] dir_at(k) == d
}

/// The enumeration `dir_at(0..6)` lists every face direction exactly once.
pub proof fn lemma_dir_at_enumerates()
    ensures
        forall|d: Direction| #[trigger] enumerated(d),
        forall|k1: int, k2: int| 0 <= k1 < 6 && 0 <= k2 < 6 && k1 != k2 ==> #[trigger] dir_at(k1) != #[trigger] dir_at(k2),
{
    assert forall|d: Direction| #[trigger] enumerated(d) by {
        match d {
            Direction::XMinus => assert(dir_at(0) == d),
            Direction::XPlus => assert(dir_at(1) == d),
            Direction::YMinus => assert(dir_at(2) == d),
            Direction::YPlus => assert(dir_at(3) == d),
            Direction::ZMinus => assert(dir_at(4) == d),
            Direction::ZPlus => assert(dir_at(5) == d),
        }
    }
}

/// Leaf `j` touches face `dir_at(k)` of leaf `i`.
pub open spec fn adjacent_in_dir(ks: Seq<u128>, g: [u32; 3], i: int, j: int, k: int) -> bool {
    exists|q: int| 0 <= q < face_neighbours(ks, g, ks[i], dir_at(k)).len()
        && #[trigger] face_neighbours(ks, g, ks[i], dir_at(k))[q] == ks[j]
}

/// Leaf `j` touches one of the six faces of leaf `i`.
pub open spec fn face_adjacent(ks: Seq<u128>, g: [u32; 3], i: int, j: int) -> bool {
    exists|k: int| 0 <= k < 6 && #[trigger] adjacent_in_dir(ks, g, i, j, k)
}

/// A walk through non-intersect leaves, each step crossing a face.
pub open spec fn is_walk(ks: Seq<u128>, g: [u32; 3], types: Seq<CellType>, p: Seq<int>) -> bool {
    &&& p.len() >= 1
    &&& forall|k: int| 0 <= k < p.len() ==> 0 <= #[trigger] p[k] < ks.len() && types[p[k]] != CellType::Intersect
    &&& forall|k: int| 0 <= k < p.len() - 1 ==> face_adjacent(ks, g, #[trigger] p[k], p[k + 1])
}

/// Leaf `j` can be reached from leaf `s` without crossing an intersect leaf.
pub open spec fn reachable(ks: Seq<u128>, g: [u32; 3], types: Seq<CellType>, s: int, j: int) -> bool {
    exists|p: Seq<int>| #[trigger] is_walk(ks, g, types, p) && p[0] == s && p.last() == j
}

/// Classification after flooding from `s`: intersect leaves stay, leaves reachable from `s` are
/// fluid, the rest are solid.
pub open spec fn flooded(ks: Seq<u128>, g: [u32; 3], types: Seq<CellType>, s: int) -> Seq<CellType> {
    Seq::new(types.len(), |v: int|
        if types[v] == CellType::Intersect {
            CellType::Intersect
        } else if reachable(ks, g, types, s, v) {
            CellType::Fluid
        } else {
            CellType::Solid
        })
}

/// Number of `false` entries.
pub open spec fn count_false(s: Seq<bool>) -> nat
    decreases s.len(),
{
    if s.len() == 0 {
        0
    } else {
        count_false(s.drop_last()) + if s.last() { 0nat } else { 1nat }
    }
}

proof fn lemma_count_false_set(s: Seq<bool>, i: int)
    requires
        0 <= i < s.len(),
        !s[i],
    ensures
        count_false(s.update(i, true)) + 1 == count_false(s),
    decreases s.len(),
{
    let t = s.update(i, true);
    if i == s.len() - 1 {
        assert(t.drop_last() =~= s.drop_last());
    } else {
        lemma_count_false_set(s.drop_last(), i);
        assert(t.drop_last() =~= s.drop_last().update(i, true));
        assert(t.last() == s.last());
    }
}

proof fn lemma_extend_walk(ks: Seq<u128>, g: [u32; 3], types: Seq<CellType>, s: int, cur: int, nxt: int)
    requires
        reachable(ks, g, types, s, cur),
        face_adjacent(ks, g, cur, nxt),
        0 <= nxt < ks.len(),
        types[nxt] != CellType::Intersect,
    ensures
        reachable(ks, g, types, s, nxt),
{
    let p = choose|p: Seq<int>| #[trigger] is_walk(ks, g, types, p) && p[0] == s && p.last() == cur;
    let q = p.push(nxt);
    assert forall|k: int| 0 <= k < q.len() implies 0 <= #[trigger] q[k] < ks.len() && types[q[k]] != CellType::Intersect by {
        if k < p.len() {
            assert(q[k] == p[k]);
        }
    }
    assert forall|k: int| 0 <= k < q.len() - 1 implies face_adjacent(ks, g, #[trigger] q[k], q[k + 1]) by {
        assert(q[k] == p[k]);
        if k < p.len() - 1 {
            assert(q[k + 1] == p[k + 1]);
        } else {
            assert(q[k + 1] == nxt);
        }
    }
    assert(is_walk(ks, g, types, q));
    assert(q[0] == s && q.last() == nxt);
}

proof fn lemma_closed_reaches(ks: Seq<u128>, g: [u32; 3], types: Seq<CellType>, visited: Seq<bool>, p: Seq<int>)
    requires
        is_walk(ks, g, types, p),
        visited.len() == ks.len(),
        visited[p[0]],
        forall|v: int, j: int| 0 <= v < ks.len() && 0 <= j < ks.len() && #[trigger] visited[v]
            && types[v] != CellType::Intersect && types[j] != CellType::Intersect
            && #[trigger] face_adjacent(ks, g, v, j) ==> visited[j],
    ensures
        visited[p.last()],
    decreases p.len(),
{
    if p.len() > 1 {
        let p0 = p.drop_last();
        assert forall|k: int| 0 <= k < p0.len() implies 0 <= #[trigger] p0[k] < ks.len() && types[p0[k]] != CellType::Intersect by {
            assert(p0[k] == p[k]);
        }
        assert forall|k: int| 0 <= k < p0.len() - 1 implies face_adjacent(ks, g, #[trigger] p0[k], p0[k + 1]) by {
            assert(p0[k] == p[k]);
            assert(p0[k + 1] == p[k + 1]);
            assert(face_adjacent(ks, g, p[k], p[k + 1]));
        }
        lemma_closed_reaches(ks, g, types, visited, p0);
        let a = p[p.len() - 2];
        let b = p[p.len() - 1];
        assert(face_adjacent(ks, g, p[p.len() - 2], p[p.len() - 2 + 1]));
        assert(visited[a]);
    }
}

#[verifier::opaque]
spec fn inv_intersect(types0: Seq<CellType>, ct: Seq<CellType>, vis: Seq<bool>) -> bool {
    forall|v: int| 0 <= v < types0.len() && #[trigger] types0[v] == CellType::Intersect ==> vis[v] && ct[v] == CellType::Intersect
}

#[verifier::opaque]
spec fn inv_reached(ks: Seq<u128>, g: [u32; 3], types0: Seq<CellType>, s: int, ct: Seq<CellType>, vis: Seq<bool>) -> bool {
    forall|v: int| 0 <= v < types0.len() && types0[v] != CellType::Intersect && #[trigger] vis[v] ==>
        ct[v] == CellType::Fluid && reachable(ks, g, types0, s, v)
}

#[verifier::opaque]
spec fn inv_untouched(types0: Seq<CellType>, ct: Seq<CellType>, vis: Seq<bool>) -> bool {
    forall|v: int| 0 <= v < types0.len() && !#[trigger] vis[v] ==> ct[v] == types0[v]
}

#[verifier::opaque]
spec fn inv_queue(types0: Seq<CellType>, vis: Seq<bool>, queue: Seq<usize>) -> bool {
    forall|q: int| 0 <= q < queue.len() ==> (#[trigger] queue[q] as int) < types0.len() && vis[queue[q] as int]
        && types0[queue[q] as int] != CellType::Intersect
}

/// Every visited open leaf other than `c` and not waiting in the queue has all its open face
/// neighbours visited.
#[verifier::opaque]
spec fn inv_closed(ks: Seq<u128>, g: [u32; 3], types0: Seq<CellType>, vis: Seq<bool>, queue: Seq<usize>, c: int) -> bool {
    forall|v: int, j: int| 0 <= v < types0.len() && 0 <= j < types0.len() && #[trigger] vis[v]
        && types0[v] != CellType::Intersect && types0[j] != CellType::Intersect && v != c
        && !queue.contains(v as usize) && #[trigger] face_adjacent(ks, g, v, j) ==> vis[j]
}

spec fn bfs_state(ks: Seq<u128>, g: [u32; 3], types0: Seq<CellType>, s: int, ct: Seq<CellType>, vis: Seq<bool>, queue: Seq<usize>, c: int) -> bool {
    &&& types0.len() <= usize::MAX
    &&& ct.len() == types0.len()
    &&& vis.len() == types0.len()
    &&& 0 <= s < types0.len()
    &&& vis[s]
    &&& inv_intersect(types0, ct, vis)
    &&& inv_reached(ks, g, types0, s, ct, vis)
    &&& inv_untouched(types0, ct, vis)
    &&& inv_queue(types0, vis, queue)
    &&& inv_closed(ks, g, types0, vis, queue, c)
}

proof fn lemma_visit(ks: Seq<u128>, g: [u32; 3], types0: Seq<CellType>, s: int, ct: Seq<CellType>, vis: Seq<bool>, queue: Seq<usize>, c: int, w: usize)
    requires
        ks.len() == types0.len(),
        bfs_state(ks, g, types0, s, ct, vis, queue, c),
        0 <= c < types0.len(),
        vis[c],
        types0[c] != CellType::Intersect,
        (w as int) < types0.len(),
        !vis[w as int],
        face_adjacent(ks, g, c, w as int),
    ensures
        bfs_state(ks, g, types0, s, ct.update(w as int, CellType::Fluid), vis.update(w as int, true), queue.push(w), c),
        count_false(vis.update(w as int, true)) + 1 == count_false(vis),
{
    reveal(inv_intersect);
    reveal(inv_reached);
    reveal(inv_untouched);
    reveal(inv_queue);
    reveal(inv_closed);
    let wi = w as int;
    let ct2 = ct.update(wi, CellType::Fluid);
    let vis2 = vis.update(wi, true);
    let q2 = queue.push(w);
    assert(types0[wi] != CellType::Intersect) by {
        if types0[wi] == CellType::Intersect {
            assert(vis[wi]);
        }
    }
    assert(reachable(ks, g, types0, s, c));
    lemma_extend_walk(ks, g, types0, s, c, wi);
    lemma_count_false_set(vis, wi);
    assert forall|v: int| 0 <= v < types0.len() && #[trigger] types0[v] == CellType::Intersect implies vis2[v] && ct2[v] == CellType::Intersect by {
        assert(vis[v] && ct[v] == CellType::Intersect);
    }
    assert forall|v: int| 0 <= v < types0.len() && types0[v] != CellType::Intersect && #[trigger] vis2[v] implies
        ct2[v] == CellType::Fluid && reachable(ks, g, types0, s, v) by {
        if v != wi {
            assert(vis[v]);
        }
    }
    assert forall|v: int| 0 <= v < types0.len() && !#[trigger] vis2[v] implies ct2[v] == types0[v] by {
        assert(!vis[v]);
    }
    assert forall|q: int| 0 <= q < q2.len() implies (#[trigger] q2[q] as int) < types0.len() && vis2[q2[q] as int]
        && types0[q2[q] as int] != CellType::Intersect by {
        if q < queue.len() {
            assert(q2[q] == queue[q]);
        }
    }
    assert forall|v: int, j: int| 0 <= v < types0.len() && 0 <= j < types0.len() && #[trigger] vis2[v]
        && types0[v] != CellType::Intersect && types0[j] != CellType::Intersect && v != c
        && !q2.contains(v as usize) && #[trigger] face_adjacent(ks, g, v, j) implies vis2[j] by {
        if v == wi {
            assert(q2[queue.len() as int] == w);
        } else {
            assert(vis[v]);
            if queue.contains(v as usize) {
                let q = choose|q: int| 0 <= q < queue.len() && queue[q] == v as usize;
                assert(q2[q] == v as usize);
            }
        }
    }
}

#[verifier::rlimit(40)]
proof fn lemma_pop(ks: Seq<u128>, g: [u32; 3], types0: Seq<CellType>, s: int, ct: Seq<CellType>, vis: Seq<bool>, queue: Seq<usize>)
    requires
        bfs_state(ks, g, types0, s, ct, vis, queue, -1),
        queue.len() > 0,
    ensures
        bfs_state(ks, g, types0, s, ct, vis, queue.subrange(1, queue.len() as int), queue[0] as int),
        vis[queue[0] as int],
        types0[queue[0] as int] != CellType::Intersect,
        (queue[0] as int) < types0.len(),
{
    reveal(inv_queue);
    reveal(inv_closed);
    let q2 = queue.subrange(1, queue.len() as int);
    let c = queue[0] as int;
    assert(vis[queue[0] as int]);
    assert forall|q: int| 0 <= q < q2.len() implies (#[trigger] q2[q] as int) < types0.len() && vis[q2[q] as int]
        && types0[q2[q] as int] != CellType::Intersect by {
        assert(q2[q] == queue[q + 1]);
    }
    assert forall|v: int, j: int| 0 <= v < types0.len() && 0 <= j < types0.len() && #[trigger] vis[v]
        && types0[v] != CellType::Intersect && types0[j] != CellType::Intersect && v != c
        && !q2.contains(v as usize) && #[trigger] face_adjacent(ks, g, v, j) implies vis[j] by {
        if queue.contains(v as usize) {
            let q = choose|q: int| 0 <= q < queue.len() && queue[q] == v as usize;
            if q > 0 {
                assert(q2[q - 1] == v as usize);
                assert(q2.contains(v as usize));
            } else {
                assert(v == c);
            }
        }
        assert(!queue.contains(v as usize));
        assert(inv_closed(ks, g, types0, vis, queue, -1));
    }
}

fn direction_at(k: usize) -> (r: Direction)
    requires
        k < 6,
    ensures
        r == dir_at(k as int),
{
    if k == 0 {
        Direction::XMinus
    } else if k == 1 {
        Direction::XPlus
    } else if k == 2 {
        Direction::YMinus
    } else if k == 3 {
        Direction::YPlus
    } else if k == 4 {
        Direction::ZMinus
    } else {
        Direction::ZPlus
    }
}

/// BFS flood fill for inside/outside classification from the seed leaf `seed`.
///
/// Fills every non-intersect leaf reachable from the seed across faces as `Fluid`; `Intersect`
/// leaves act as barriers, and every other non-intersect leaf becomes `Solid`. Fails when there
/// is no seed leaf (the seed point lies outside the domain) or the seed leaf is an intersect
/// cell, leaving `cell_types` untouched.
pub fn flood_fill_from_seed(forest: &Forest, cell_types: &mut [CellType], seed: Option<usize>) -> (r: Result<(), FloodFillError>)
    requires
        grid_addressable(forest.grid()),
        old(cell_types)@.len() == forest.key_seq().len(),
        seed matches Some(s) ==> s < forest.key_seq().len(),
    ensures
        match seed {
            None => r == Err::<(), FloodFillError>(FloodFillError::SeedOutsideDomain) && final(cell_types)@ == old(cell_types)@,
            Some(s) => if old(cell_types)@[s as int] == CellType::Intersect {
                r == Err::<(), FloodFillError>(FloodFillError::SeedOnIntersect) && final(cell_types)@ == old(cell_types)@
            } else {
                r is Ok && final(cell_types)@ == flooded(forest.key_seq(), forest.grid(), old(cell_types)@, s as int)
            },
        },
{
    let ghost types0 = cell_types@;
    let ghost ks = forest.key_seq();
    let ghost g = forest.grid();
    let total_cells = forest.num_cells();
    proof {
        lemma_leaves_strictly_sorted(ks);
    }
    let mut visited = vec![false; total_cells];
    let mut i: usize = 0;
    while i < total_cells
        invariant
            i <= total_cells == ks.len() == types0.len(),
            cell_types@ == types0,
            visited@.len() == total_cells,
            forall|v: int| 0 <= v < total_cells ==> #[trigger] visited@[v] == (v < i && types0[v] == CellType::Intersect),
        decreases total_cells - i,
    {
        if cell_types[i] == CellType::Intersect {
            visited[i] = true;
        }
        i = i + 1;
    }

    let seed_id = match seed {
        Some(s) => s,
        None => {
            return Err(FloodFillError::SeedOutsideDomain);
        },
    };
    if cell_types[seed_id] == CellType::Intersect {
        return Err(FloodFillError::SeedOnIntersect);
    }
    let ghost s = seed_id as int;

    let mut queue: VecDeque<usize> = VecDeque::new();
    queue.push_back(seed_id);
    visited[seed_id] = true;
    cell_types[seed_id] = CellType::Fluid;
    proof {
        let p = seq![s];
        assert(is_walk(ks, g, types0, p));
        assert(reachable(ks, g, types0, s, s));
        let vis = visited@;
        let ct = cell_types@;
        reveal(inv_intersect);
        reveal(inv_reached);
        reveal(inv_untouched);
        reveal(inv_queue);
        reveal(inv_closed);
        assert forall|v: int| 0 <= v < types0.len() && #[trigger] types0[v] == CellType::Intersect implies vis[v] && ct[v] == CellType::Intersect by {}
        assert forall|v: int| 0 <= v < types0.len() && types0[v] != CellType::Intersect && #[trigger] vis[v] implies
            ct[v] == CellType::Fluid && reachable(ks, g, types0, s, v) by {
            assert(v == s);
        }
        assert forall|v: int| 0 <= v < types0.len() && !#[trigger] vis[v] implies ct[v] == types0[v] by {}
        assert(queue@[0] == seed_id);
        assert forall|v: int, j: int| 0 <= v < types0.len() && 0 <= j < types0.len() && #[trigger] vis[v]
            && types0[v] != CellType::Intersect && types0[j] != CellType::Intersect && v != -1
            && !queue@.contains(v as usize) && #[trigger] face_adjacent(ks, g, v, j) implies vis[j] by {
            assert(v == s);
        }
        assert(bfs_state(ks, g, types0, s, cell_types@, visited@, queue@, -1));
    }

    while queue.len() > 0
        invariant
            total_cells == ks.len() == types0.len(),
            ks == forest.key_seq(),
            g == forest.grid(),
            grid_addressable(g),
            strictly_sorted(ks),
            bfs_state(ks, g, types0, s, cell_types@, visited@, queue@, -1),
        decreases count_false(visited@), queue@.len(),
    {
        let ghost queue_full = queue@;
        proof {
            lemma_pop(ks, g, types0, s, cell_types@, visited@, queue@);
        }
        let curr_id = queue.pop_front().unwrap();
        let ghost c = curr_id as int;
        let ghost visited_at_pop = visited@;
        let ghost queue_at_pop = queue@;
        let mut di: usize = 0;
        while di < 6
            invariant
                total_cells == ks.len() == types0.len(),
                ks == forest.key_seq(),
                g == forest.grid(),
                grid_addressable(g),
                strictly_sorted(ks),
                0 <= c < total_cells,
                c == curr_id,
                types0[c] != CellType::Intersect,
                visited@[c],
                di <= 6,
                queue_at_pop.len() + 1 == queue_full.len(),
                bfs_state(ks, g, types0, s, cell_types@, visited@, queue@, c),
                count_false(visited@) <= count_false(visited_at_pop),
                count_false(visited@) == count_false(visited_at_pop) ==> queue@ == queue_at_pop,
                forall|k: int, j: int| 0 <= k < di && 0 <= j < total_cells && #[trigger] adjacent_in_dir(ks, g, c, j, k) ==> visited@[j],
            decreases 6 - di,
        {
            let dir = direction_at(di);
            let nbrs = forest.face_neighbour_global_ids(curr_id, dir);
            let ghost fnb = face_neighbours(ks, g, ks[c], dir_at(di as int));
            let mut m: usize = 0;
            while m < nbrs.len()
                invariant
                    total_cells == ks.len() == types0.len(),
                    ks == forest.key_seq(),
                    g == forest.grid(),
                    strictly_sorted(ks),
                    0 <= c < total_cells,
                    types0[c] != CellType::Intersect,
                    visited@[c],
                    di < 6,
                    fnb == face_neighbours(ks, g, ks[c], dir_at(di as int)),
                    nbrs@.len() == fnb.len(),
                    forall|q: int| 0 <= q < nbrs@.len() ==> #[trigger] nbrs@[q] < total_cells && ks[nbrs@[q] as int] == fnb[q],
                    m <= nbrs@.len(),
                    bfs_state(ks, g, types0, s, cell_types@, visited@, queue@, c),
                    count_false(visited@) <= count_false(visited_at_pop),
                    count_false(visited@) == count_false(visited_at_pop) ==> queue@ == queue_at_pop,
                    forall|k: int, j: int| 0 <= k < di && 0 <= j < total_cells && #[trigger] adjacent_in_dir(ks, g, c, j, k) ==> visited@[j],
                    forall|q: int| 0 <= q < m ==> visited@[#[trigger] nbrs@[q] as int],
                decreases nbrs@.len() - m,
            {
                let nbr_id = nbrs[m];
                if !visited[nbr_id] {
                    proof {
                        let w = nbr_id as int;
                        assert(adjacent_in_dir(ks, g, c, w, di as int)) by {
                            assert(fnb[m as int] == ks[w]);
                        }
                        assert(face_adjacent(ks, g, c, w));
                        lemma_visit(ks, g, types0, s, cell_types@, visited@, queue@, c, nbr_id);
                    }
                    visited[nbr_id] = true;
                    cell_types[nbr_id] = CellType::Fluid;
                    queue.push_back(nbr_id);
                }
                m = m + 1;
            }
            proof {
                assert forall|j: int| 0 <= j < total_cells && #[trigger] adjacent_in_dir(ks, g, c, j, di as int) implies visited@[j] by {
                    let q = choose|q: int| 0 <= q < fnb.len() && #[trigger] fnb[q] == ks[j];
                    let w = nbrs@[q] as int;
                    assert(ks[w] == ks[j]);
                    if w != j {
                        if w < j {
                            assert(ks[w] < ks[j]);
                        } else {
                            assert(ks[j] < ks[w]);
                        }
                    }
                    assert(visited@[nbrs@[q] as int]);
                }
            }
            di = di + 1;
        }
        proof {
            let vis = visited@;
            reveal(inv_closed);
            assert forall|v: int, j: int| 0 <= v < types0.len() && 0 <= j < types0.len() && #[trigger] vis[v]
                && types0[v] != CellType::Intersect && types0[j] != CellType::Intersect && v != -1
                && !queue@.contains(v as usize) && #[trigger] face_adjacent(ks, g, v, j) implies vis[j] by {
                if v == c {
                    let k = choose|k: int| 0 <= k < 6 && #[trigger] adjacent_in_dir(ks, g, v, j, k);
                    assert(adjacent_in_dir(ks, g, c, j, k));
                }
            }
            assert(bfs_state(ks, g, types0, s, cell_types@, visited@, queue@, -1));
        }
    }

    proof {
        let vis = visited@;
        reveal(inv_closed);
        reveal(inv_untouched);
        reveal(inv_intersect);
        reveal(inv_reached);
        assert(queue@.len() == 0);
        assert forall|v: int, j: int| 0 <= v < total_cells && 0 <= j < total_cells && #[trigger] vis[v]
            && types0[v] != CellType::Intersect && types0[j] != CellType::Intersect
            && #[trigger] face_adjacent(ks, g, v, j) implies vis[j] by {
            assert(!queue@.contains(v as usize));
            assert(v != -1);
        }
    }

    let mut i: usize = 0;
    while i < total_cells
        invariant
            total_cells == ks.len() == types0.len(),
            0 <= s < total_cells,
            types0[s] != CellType::Intersect,
            i <= total_cells,
            cell_types@.len() == total_cells,
            visited@.len() == total_cells,
            visited@[s],
            forall|v: int| 0 <= v < total_cells && #[trigger] types0[v] == CellType::Intersect ==> visited@[v] && cell_types@[v] == CellType::Intersect,
            forall|v: int| 0 <= v < total_cells && types0[v] != CellType::Intersect && #[trigger] visited@[v] ==>
                cell_types@[v] == CellType::Fluid && reachable(ks, g, types0, s, v),
            forall|v: int| i <= v < total_cells && !#[trigger] visited@[v] ==> cell_types@[v] == types0[v],
            forall|v: int| 0 <= v < i && !#[trigger] visited@[v] && types0[v] != CellType::Intersect ==> cell_types@[v] == CellType::Solid,
            forall|v: int, j: int| 0 <= v < total_cells && 0 <= j < total_cells && #[trigger] visited@[v]
                && types0[v] != CellType::Intersect && types0[j] != CellType::Intersect
                && #[trigger] face_adjacent(ks, g, v, j) ==> visited@[j],
        decreases total_cells - i,
    {
        if !visited[i] && cell_types[i] != CellType::Intersect {
            proof {
                assert(types0[i as int] != CellType::Intersect);
            }
            cell_types[i] = CellType::Solid;
        }
        i = i + 1;
    }
    proof {
        let expected = flooded(ks, g, types0, s);
        assert forall|v: int| 0 <= v < total_cells implies cell_types@[v] == #[trigger] expected[v] by {
            if types0[v] != CellType::Intersect && !visited@[v] {
                if reachable(ks, g, types0, s, v) {
                    let p = choose|p: Seq<int>| #[trigger] is_walk(ks, g, types0, p) && p[0] == s && p.last() == v;
                    lemma_closed_reaches(ks, g, types0, visited@, p);
                }
            }
        }
        assert(cell_types@ =~= expected);
    }
    Ok(())
}

/// Face adjacency means touching a face in any of the six directions: `j` is face-adjacent to
/// `i` exactly when `j` is among the leaves touching some face `d` of `i`.
pub proof fn lemma_face_adjacent_any_direction(ks: Seq<u128>, g: [u32; 3], i: int, j: int)
    ensures
        face_adjacent(ks, g, i, j) <==> exists|d: Direction| #[trigger] face_neighbours(ks, g, ks[i], d).contains(ks[j]),
{
    lemma_dir_at_enumerates();
    if face_adjacent(ks, g, i, j) {
        let k = choose|k: int| 0 <= k < 6 && #[trigger] adjacent_in_dir(ks, g, i, j, k);
        let fnb = face_neighbours(ks, g, ks[i], dir_at(k));
        let q = choose|q: int| 0 <= q < fnb.len() && #[trigger] fnb[q] == ks[j];
        assert(fnb.contains(ks[j]));
    }
    if exists|d: Direction| #[trigger] face_neighbours(ks, g, ks[i], d).contains(ks[j]) {
        let d = choose|d: Direction| #[trigger] face_neighbours(ks, g, ks[i], d).contains(ks[j]);
        assert(enumerated(d));
        let k = choose|k: int| 0 <= k < 6 && #[trigger] dir_at(k) == d;
        let fnb = face_neighbours(ks, g, ks[i], d);
        let q = choose|q: int| 0 <= q < fnb.len() && fnb[q] == ks[j];
        assert(face_neighbours(ks, g, ks[i], dir_at(k))[q] == ks[j]);
        assert(adjacent_in_dir(ks, g, i, j, k));
    }
}

/// Flooding spreads across every face: when leaf `i` is reached from the seed and leaf `j`
/// touches any face of `i` and is not an intersect leaf, `j` is reached too.
pub proof fn lemma_flood_crosses_every_face(ks: Seq<u128>, g: [u32; 3], types: Seq<CellType>, s: int, i: int, j: int, d: Direction)
    requires
        reachable(ks, g, types, s, i),
        0 <= j < ks.len(),
        types[j] != CellType::Intersect,
        face_neighbours(ks, g, ks[i], d).contains(ks[j]),
    ensures
        reachable(ks, g, types, s, j),
{
    lemma_face_adjacent_any_direction(ks, g, i, j);
    lemma_extend_walk(ks, g, types, s, i, j);
}

} // verus!
