//! Prim's algorithm, simple variant: grow the maze from a random
//! frontier cell.
//!
//! The frontier (`edges`) is kept exactly equal to the set of visited
//! cells that still border an unvisited cell.  A step picks a frontier
//! cell uniformly at random, carves to a random unvisited neighbour,
//! and recomputes the frontier.

use vstd::prelude::*;
use rand::rngs::StdRng;
use crate::cellset::{CellSet, count_true, lemma_count_all_false, lemma_count_at_least_one};
use crate::grid::{Grid, Pos, carved_just, flat_idx, lat_adj, lemma_flat_idx_bounds,
    lemma_idx_bounds};
use crate::maze::Maze;
use crate::rng::rand_below;
use crate::tree::{lemma_boundary, lemma_full_cover, lemma_member_pos,
    lemma_tree_complete, lemma_tree_extend, lemma_tree_start, pos_of_index, tree_inv};

verus! {

/// The frontier set matches its definition: exactly the visited cells
/// that still have an unvisited neighbour.
pub open spec fn frontier_exact(visited: CellSet, frontier: CellSet) -> bool {
    &&& frontier.width == visited.width
    &&& frontier.height == visited.height
    &&& frontier.wf()
    &&& forall|p: Pos| visited.in_bounds(p) ==> (#[trigger] frontier.has(p)) == (visited.has(p)
        && visited.has_absent_neighbor(p))
}

/// Compute the frontier of a visited set from scratch.
pub fn rebuild_frontier(visited: &CellSet) -> (fr: CellSet)
    requires
        visited.wf(),
    ensures
        frontier_exact(*visited, fr),
{
    let mut fr = CellSet::new(visited.width, visited.height);
    let ghost w = visited.width as int;
    let ghost h = visited.height as int;
    proof {
        assert forall|p: Pos| visited.in_bounds(p) implies !fr.has(p) by {
            lemma_flat_idx_bounds(w, h, p);
        }
    }
    let total: usize = visited.width * visited.height;
    let mut i: usize = 0;
    let mut x: usize = 0;
    let mut y: usize = 0;
    while i < total
        invariant
            visited.wf(),
            fr.wf(),
            fr.width == visited.width,
            fr.height == visited.height,
            w == visited.width as int,
            h == visited.height as int,
            total == visited.area(),
            i == y * visited.width + x,
            x < visited.width,
            y <= visited.height,
            i <= total,
            forall|p: Pos| visited.in_bounds(p) && flat_idx(visited.width as int, p) < i
                ==> (#[trigger] fr.has(p)) == (visited.has(p) && visited.has_absent_neighbor(p)),
            forall|p: Pos| visited.in_bounds(p) && flat_idx(visited.width as int, p) >= i
                ==> !(#[trigger] fr.has(p)),
        decreases total - i,
    {
        proof {
            assert(y < visited.height) by (nonlinear_arith)
                requires
                    i == y * visited.width + x,
                    i < total,
                    total == visited.width * visited.height,
                    x < visited.width,
                    y <= visited.height,
            ;
        }
        let p = Pos::new(x, y);
        proof {
            lemma_flat_idx_bounds(w, h, p);
        }
        let ghost fr0 = fr;
        let mut in_frontier = false;
        if visited.contains(p) {
            let cands = p.neighbors_not_in(visited);
            if cands.len() > 0 {
                in_frontier = true;
                proof {
                    let q = cands@[0].target();
                    assert(lat_adj(p, q) && visited.in_bounds(q) && !visited.has(q));
                }
            }
        }
        if in_frontier {
            fr.insert(p);
        }
        proof {
            assert forall|c: Pos| visited.in_bounds(c) && flat_idx(w, c) < i + 1 implies (
            #[trigger] fr.has(c)) == (visited.has(c) && visited.has_absent_neighbor(c)) by {
                lemma_flat_idx_bounds(w, h, c);
                if flat_idx(w, c) < i {
                    assert(fr.has(c) == fr0.has(c));
                } else {
                    assert(flat_idx(w, c) == i);
                    crate::grid::lemma_flat_idx_injective(w, h, c, p);
                    assert(c == p);
                }
            }
            assert forall|c: Pos| visited.in_bounds(c) && flat_idx(w, c) >= i + 1 implies !(
            #[trigger] fr.has(c)) by {
                lemma_flat_idx_bounds(w, h, c);
                assert(fr.has(c) == fr0.has(c));
            }
        }
        i = i + 1;
        x = x + 1;
        if x == visited.width {
            proof {
                assert((y + 1) * visited.width == y * visited.width + visited.width)
                    by (nonlinear_arith);
            }
            x = 0;
            y = y + 1;
        }
    }
    proof {
        assert forall|p: Pos| visited.in_bounds(p) implies (#[trigger] fr.has(p)) == (visited.has(
            p,
        ) && visited.has_absent_neighbor(p)) by {
            lemma_flat_idx_bounds(w, h, p);
        }
    }
    fr
}

/// Law of the frontier: as long as some cell is visited, the frontier
/// is empty exactly when every cell of the grid has been visited.
pub proof fn lemma_frontier_empty_iff_full(visited: CellSet, frontier: CellSet)
    requires
        visited.wf(),
        frontier_exact(visited, frontier),
        count_true(visited.cells@) >= 1,
    ensures
        (count_true(frontier.cells@) == 0) <==> (count_true(visited.cells@) == visited.area()),
{
    let w = visited.width as int;
    let h = visited.height as int;
    if count_true(visited.cells@) == visited.area() {
        lemma_full_cover(w, h, visited.cells@);
        assert forall|i: int| 0 <= i < frontier.cells@.len() implies !frontier.cells@[i] by {
            let p = pos_of_index(w, h, i);
            assert(frontier.has(p) == (visited.has(p) && visited.has_absent_neighbor(p)));
            if visited.has_absent_neighbor(p) {
                let q = choose|q: Pos| #[trigger] lat_adj(p, q) && visited.in_bounds(q)
                    && !visited.has(q);
                assert(visited.cells@[flat_idx(w, q)]);
            }
        }
        lemma_count_all_false(frontier.cells@, frontier.cells@.len() as int);
    }
    if count_true(frontier.cells@) == 0 && count_true(visited.cells@) != visited.area() {
        assert forall|i: int| 0 <= i < frontier.cells@.len() implies !frontier.cells@[i] by {
            if frontier.cells@[i] {
                lemma_count_at_least_one(frontier.cells@, frontier.cells@.len() as int, i);
            }
        }
        // some cell is visited and some is not: a boundary pair exists,
        // and its visited side would be in the frontier
        lemma_member_pos(w, h, visited.cells@);
        let a = choose|a: Pos| a.x < w && a.y < h && visited.cells@[#[trigger] flat_idx(w, a)];
        crate::cellset::lemma_count_bounds(visited.cells@, visited.cells@.len() as int);
        assert(count_true(visited.cells@) < visited.area());
        if forall|i: int| 0 <= i < visited.cells@.len() ==> visited.cells@[i] {
            crate::cellset::lemma_count_all_true(visited.cells@, visited.cells@.len() as int);
            assert(false);
        }
        let i = choose|i: int| 0 <= i < visited.cells@.len() && !visited.cells@[i];
        let b = pos_of_index(w, h, i);
        lemma_boundary(w, h, visited.cells@, a, b);
        let (u, v) = choose|u: Pos, v: Pos| #[trigger] lat_adj(u, v) && u.x < w && u.y < h && v.x
            < w && v.y < h && visited.cells@[flat_idx(w, u)] && !visited.cells@[flat_idx(w, v)];
        assert(visited.has(u) && lat_adj(u, v) && visited.in_bounds(v) && !visited.has(v));
        assert(visited.has_absent_neighbor(u));
        assert(frontier.has(u));
        lemma_flat_idx_bounds(w, h, u);
        assert(false);
    }
}

/// The simple Prim engine.
pub struct Prim {
    pub nodes: Grid,
    pub visited: CellSet,
    pub edges: CellSet,
}

/// Law of the frontier, stated on the engine: before completion the
/// frontier is non-empty exactly while some cell is still unvisited,
/// and at completion it is empty.
pub proof fn lemma_prim_frontier_law(m: Prim)
    requires
        m.wf(),
    ensures
        (count_true(m.edges.cells@) == 0) <==> (count_true(m.visited.cells@) == m.nodes.area()),
{
    lemma_frontier_empty_iff_full(m.visited, m.edges);
}

impl Maze for Prim {
    open spec fn wf(&self) -> bool {
        &&& self.visited.width == self.nodes.width
        &&& self.visited.height == self.nodes.height
        &&& self.visited.wf()
        &&& tree_inv(self.nodes, self.visited.cells@)
        &&& frontier_exact(self.visited, self.edges)
    }

    open spec fn grid_view(&self) -> Grid {
        self.nodes
    }

    fn grid(&self) -> (g: &Grid) {
        &self.nodes
    }

    open spec fn done(&self) -> bool {
        count_true(self.visited.cells@) == self.nodes.area() && count_true(self.edges.cells@) == 0
    }

    fn new(width: usize, height: usize, rng: &mut StdRng) -> (m: Self)
        ensures
            m.done() == (width * height == 1),
            count_true(m.visited.cells@) == 1,
    {
        let nodes = Grid::new(width, height);
        let mut visited = CellSet::new(width, height);
        let sx = rand_below(rng, width);
        let sy = rand_below(rng, height);
        let start = Pos::new(sx, sy);
        proof {
            lemma_idx_bounds(nodes, start);
        }
        visited.insert(start);
        proof {
            assert forall|i: int| 0 <= i < visited.cells@.len() implies visited.cells@[i] == (i
                == nodes.idx(start)) by {}
            lemma_tree_start(nodes, visited.cells@, start);
        }
        let edges = rebuild_frontier(&visited);
        let m = Prim { nodes, visited, edges };
        proof {
            lemma_frontier_empty_iff_full(m.visited, m.edges);
        }
        m
    }

    fn complete(&self) -> (r: bool) {
        let r = self.visited.is_full() && self.edges.len() == 0;
        proof {
            if r {
                lemma_tree_complete(self.nodes, self.visited.cells@);
            }
        }
        r
    }

    fn reset(&mut self, rng: &mut StdRng)
        ensures
            final(self).done() == (old(self).grid_view().area() == 1),
            count_true(final(self).visited.cells@) == 1,
    {
        let w = self.nodes.width;
        let h = self.nodes.height;
        *self = Self::new(w, h, rng);
    }

    fn generate(&mut self, rng: &mut StdRng)
        ensures
            count_true(final(self).visited.cells@) >= count_true(old(self).visited.cells@),
            !old(self).done() ==> count_true(final(self).visited.cells@) == count_true(
                old(self).visited.cells@,
            ) + 1,
            forall|p: Pos, q: Pos| #[trigger] old(self).nodes.open_between(p, q)
                ==> final(self).nodes.open_between(p, q),
            forall|p: Pos| old(self).visited.in_bounds(p) && #[trigger] old(self).visited.has(p)
                ==> final(self).visited.has(p),
            // the step crosses one frontier wall into fresh ground
            !old(self).done() ==> (exists|a: Pos, b: Pos| #[trigger] lat_adj(a, b)
                && old(self).visited.has(a) && old(self).nodes.in_bounds(b)
                && !old(self).visited.has(b)
                && carved_just(old(self).nodes, final(self).nodes, a, b)
                && final(self).visited.cells@
                    == old(self).visited.cells@.update(old(self).nodes.idx(b), true)),
    {
        if self.edges.len() == 0 {
            // an empty frontier means every cell is already visited
            proof {
                lemma_frontier_empty_iff_full(self.visited, self.edges);
            }
            return;
        }
        let mems = self.edges.members();
        let k = rand_below(rng, mems.len());
        let pos = mems[k];
        proof {
            assert(self.edges.has(pos));
            assert(self.visited.has(pos) && self.visited.has_absent_neighbor(pos));
        }
        let cands = pos.neighbors_not_in(&self.visited);
        proof {
            let q = choose|q: Pos| #[trigger] lat_adj(pos, q) && self.visited.in_bounds(q)
                && !self.visited.has(q);
            assert(exists|i: int| 0 <= i < cands@.len() && (#[trigger] cands@[i]).target() == q);
        }
        let k2 = rand_below(rng, cands.len());
        let d = cands[k2];
        let t = d.get_pos();
        proof {
            lemma_idx_bounds(self.nodes, t);
            lemma_idx_bounds(self.nodes, pos);
            if self.nodes.open_between(pos, t) {
                assert(self.visited.cells@[self.nodes.idx(t)]);
            }
        }
        let ghost g1 = self.nodes;
        let ghost vs1 = self.visited.cells@;
        self.nodes.carve(pos, d);
        self.visited.insert(t);
        proof {
            lemma_tree_extend(g1, self.nodes, vs1, pos, t);
            assert(lat_adj(pos, t));
            assert(self.visited.cells@ == vs1.update(g1.idx(t), true));
            assert forall|c: Pos| old(self).visited.in_bounds(c) && #[trigger] old(
                self,
            ).visited.has(c) implies self.visited.has(c) by {
                lemma_idx_bounds(g1, c);
            }
        }
        let edges = rebuild_frontier(&self.visited);
        self.edges = edges;
    }
}

} // verus!
