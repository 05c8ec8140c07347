//! Prim's algorithm, edge-weighted variant: grow the maze across a
//! uniformly random frontier edge.
//!
//! Where the simple variant first picks a frontier cell and then one of
//! its unvisited neighbours, this variant collects every (frontier
//! cell, unvisited neighbour) pair and picks among those pairs
//! uniformly, weighting cells by how many walls they could still open.

use vstd::prelude::*;
use rand::rngs::StdRng;
use crate::cellset::{CellSet, count_true};
use crate::grid::{Direction, Grid, Pos, carved_just, dir_ok, lat_adj, lemma_idx_bounds};
use crate::maze::Maze;
use crate::prim::{frontier_exact, lemma_frontier_empty_iff_full, rebuild_frontier};
use crate::rng::rand_below;
use crate::tree::{lemma_tree_complete, lemma_tree_extend, lemma_tree_start,
    tree_inv};

verus! {

/// The edge-weighted Prim engine.
pub struct RandomizedPrim {
    pub nodes: Grid,
    pub visited: CellSet,
    pub edges: CellSet,
}

/// Law of the frontier, stated on the engine: the frontier is empty
/// exactly when every cell of the grid has been visited.
pub proof fn lemma_randomized_prim_frontier_law(m: RandomizedPrim)
    requires
        m.wf(),
    ensures
        (count_true(m.edges.cells@) == 0) <==> (count_true(m.visited.cells@) == m.nodes.area()),
{
    lemma_frontier_empty_iff_full(m.visited, m.edges);
}

impl Maze for RandomizedPrim {
    open spec fn wf(&self) -> bool {
        &&& self.visited.width == self.nodes.width
        &&& self.visited.height == self.nodes.height
        &&& self.visited.wf()
        &&& tree_inv(self.nodes, self.visited.cells@)
        &&& frontier_exact(self.visited, self.edges)
    }

    open spec fn grid_view(&self) -> Grid {
        self.nodes
    }

    fn grid(&self) -> (g: &Grid) {
        &self.nodes
    }

    open spec fn done(&self) -> bool {
        count_true(self.visited.cells@) == self.nodes.area() && count_true(self.edges.cells@) == 0
    }

    fn new(width: usize, height: usize, rng: &mut StdRng) -> (m: Self)
        ensures
            m.done() == (width * height == 1),
            count_true(m.visited.cells@) == 1,
    {
        let nodes = Grid::new(width, height);
        let mut visited = CellSet::new(width, height);
        let sx = rand_below(rng, width);
        let sy = rand_below(rng, height);
        let start = Pos::new(sx, sy);
        proof {
            lemma_idx_bounds(nodes, start);
        }
        visited.insert(start);
        proof {
            assert forall|i: int| 0 <= i < visited.cells@.len() implies visited.cells@[i] == (i
                == nodes.idx(start)) by {}
            lemma_tree_start(nodes, visited.cells@, start);
        }
        let edges = rebuild_frontier(&visited);
        let m = RandomizedPrim { nodes, visited, edges };
        proof {
            lemma_frontier_empty_iff_full(m.visited, m.edges);
        }
        m
    }

    fn complete(&self) -> (r: bool) {
        let r = self.visited.is_full() && self.edges.len() == 0;
        proof {
            if r {
                lemma_tree_complete(self.nodes, self.visited.cells@);
            }
        }
        r
    }

    fn reset(&mut self, rng: &mut StdRng)
        ensures
            final(self).done() == (old(self).grid_view().area() == 1),
            count_true(final(self).visited.cells@) == 1,
    {
        let w = self.nodes.width;
        let h = self.nodes.height;
        *self = Self::new(w, h, rng);
    }

    fn generate(&mut self, rng: &mut StdRng)
        ensures
            count_true(final(self).visited.cells@) >= count_true(old(self).visited.cells@),
            !old(self).done() ==> count_true(final(self).visited.cells@) == count_true(
                old(self).visited.cells@,
            ) + 1,
            forall|p: Pos, q: Pos| #[trigger] old(self).nodes.open_between(p, q)
                ==> final(self).nodes.open_between(p, q),
            forall|p: Pos| old(self).visited.in_bounds(p) && #[trigger] old(self).visited.has(p)
                ==> final(self).visited.has(p),
            // the step crosses one frontier wall into fresh ground
            !old(self).done() ==> (exists|a: Pos, b: Pos| #[trigger] lat_adj(a, b)
                && old(self).visited.has(a) && old(self).nodes.in_bounds(b)
                && !old(self).visited.has(b)
                && carved_just(old(self).nodes, final(self).nodes, a, b)
                && final(self).visited.cells@
                    == old(self).visited.cells@.update(old(self).nodes.idx(b), true)),
    {
        if self.edges.len() == 0 {
            // an empty frontier means every cell is already visited
            proof {
                lemma_frontier_empty_iff_full(self.visited, self.edges);
            }
            return;
        }
        let mems = self.edges.members();
        // collect every wall that could be opened from the frontier
        let mut pairs: Vec<(Pos, Direction)> = Vec::new();
        let mut j: usize = 0;
        while j < mems.len()
            invariant
                self.visited.wf(),
                self.visited.width == self.nodes.width,
                self.visited.height == self.nodes.height,
                frontier_exact(self.visited, self.edges),
                j <= mems@.len(),
                forall|k: int| 0 <= k < mems@.len() ==> self.visited.in_bounds(#[trigger] mems@[k])
                    && self.edges.has(mems@[k]),
                forall|k: int| 0 <= k < pairs@.len() ==> {
                    let (p, d) = #[trigger] pairs@[k];
                    &&& self.visited.in_bounds(p)
                    &&& self.visited.has(p)
                    &&& dir_ok(p, d)
                    &&& self.visited.in_bounds(d.target())
                    &&& !self.visited.has(d.target())
                },
                j >= 1 ==> pairs@.len() >= 1,
            decreases mems@.len() - j,
        {
            let m = mems[j];
            let cands = m.neighbors_not_in(&self.visited);
            proof {
                assert(self.edges.has(mems@[j as int]));
                assert(self.visited.has(m) && self.visited.has_absent_neighbor(m));
                let q = choose|q: Pos| #[trigger] lat_adj(m, q) && self.visited.in_bounds(q)
                    && !self.visited.has(q);
                assert(exists|i: int| 0 <= i < cands@.len() && (#[trigger] cands@[i]).target()
                    == q);
            }
            let mut c: usize = 0;
            while c < cands.len()
                invariant
                    self.visited.wf(),
                    self.visited.width == self.nodes.width,
                    self.visited.height == self.nodes.height,
                    c <= cands@.len(),
                    self.visited.in_bounds(m),
                    self.visited.has(m),
                    forall|i: int| 0 <= i < cands@.len() ==> dir_ok(m, #[trigger] cands@[i])
                        && self.visited.in_bounds(cands@[i].target()) && !self.visited.has(
                        cands@[i].target(),
                    ),
                    forall|k: int| 0 <= k < pairs@.len() ==> {
                        let (p, d) = #[trigger] pairs@[k];
                        &&& self.visited.in_bounds(p)
                        &&& self.visited.has(p)
                        &&& dir_ok(p, d)
                        &&& self.visited.in_bounds(d.target())
                        &&& !self.visited.has(d.target())
                    },
                    pairs@.len() >= c,
                decreases cands@.len() - c,
            {
                pairs.push((m, cands[c]));
                c = c + 1;
            }
            j = j + 1;
        }
        let k = rand_below(rng, pairs.len());
        let (pos, d) = pairs[k];
        let t = d.get_pos();
        proof {
            lemma_idx_bounds(self.nodes, t);
            lemma_idx_bounds(self.nodes, pos);
            if self.nodes.open_between(pos, t) {
                assert(self.visited.cells@[self.nodes.idx(t)]);
            }
        }
        let ghost g1 = self.nodes;
        let ghost vs1 = self.visited.cells@;
        self.nodes.carve(pos, d);
        self.visited.insert(t);
        proof {
            lemma_tree_extend(g1, self.nodes, vs1, pos, t);
            assert(lat_adj(pos, t));
            assert(self.visited.cells@ == vs1.update(g1.idx(t), true));
            assert forall|c: Pos| old(self).visited.in_bounds(c) && #[trigger] old(
                self,
            ).visited.has(c) implies self.visited.has(c) by {
                lemma_idx_bounds(g1, c);
            }
        }
        let edges = rebuild_frontier(&self.visited);
        self.edges = edges;
    }
}

} // verus!
