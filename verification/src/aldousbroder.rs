//! Aldous-Broder: a uniform random walk over the whole grid that
//! carves a wall exactly when it first enters a cell.

use vstd::prelude::*;
use rand::rngs::StdRng;
use crate::cellset::{CellSet, count_true, lemma_count_bounds};
use crate::grid::{Grid, Pos, carved_just, lat_adj, lemma_idx_bounds, push_recent};
use crate::maze::Maze;
use crate::rng::rand_below;
use crate::tree::{lemma_tree_complete, lemma_tree_extend, lemma_tree_start, tree_inv};

verus! {

/// How many recently entered cells are kept for display.
pub const LAST_POSSES_LEN: usize = 5000;

/// The random-walk engine: a cursor moves to a uniformly random
/// neighbour on every step; the wall just crossed is carved whenever
/// the destination had not been visited before.  `last_posses` is a
/// display trail of the most recently entered cells, newest first.
pub struct AldousBroder {
    pub nodes: Grid,
    pub visited: CellSet,
    pub current_pos: Pos,
    pub last_posses: Vec<Pos>,
}

impl Maze for AldousBroder {
    open spec fn wf(&self) -> bool {
        &&& self.visited.width == self.nodes.width
        &&& self.visited.height == self.nodes.height
        &&& self.visited.wf()
        &&& tree_inv(self.nodes, self.visited.cells@)
        &&& self.nodes.in_bounds(self.current_pos)
        &&& self.visited.has(self.current_pos)
        &&& forall|k: int| 0 <= k < self.last_posses@.len() ==> self.nodes.in_bounds(
            #[trigger] self.last_posses@[k],
        )
    }

    open spec fn grid_view(&self) -> Grid {
        self.nodes
    }

    fn grid(&self) -> (g: &Grid) {
        &self.nodes
    }

    open spec fn done(&self) -> bool {
        count_true(self.visited.cells@) == self.nodes.area()
    }

    fn new(width: usize, height: usize, rng: &mut StdRng) -> (m: Self)
        ensures
            m.done() == (width * height == 1),
            count_true(m.visited.cells@) == 1,
            m.last_posses@.len() == 0,
    {
        let nodes = Grid::new(width, height);
        let mut visited = CellSet::new(width, height);
        let sx = rand_below(rng, width);
        let sy = rand_below(rng, height);
        let start = Pos::new(sx, sy);
        proof {
            lemma_idx_bounds(nodes, start);
        }
        visited.insert(start);
        proof {
            assert forall|i: int| 0 <= i < visited.cells@.len() implies visited.cells@[i] == (i
                == nodes.idx(start)) by {}
            lemma_tree_start(nodes, visited.cells@, start);
        }
        AldousBroder { nodes, visited, current_pos: start, last_posses: Vec::new() }
    }

    fn complete(&self) -> (r: bool) {
        let r = self.visited.is_full();
        proof {
            if r {
                lemma_tree_complete(self.nodes, self.visited.cells@);
            }
        }
        r
    }

    fn reset(&mut self, rng: &mut StdRng)
        ensures
            final(self).done() == (old(self).grid_view().area() == 1),
            count_true(final(self).visited.cells@) == 1,
    {
        let w = self.nodes.width;
        let h = self.nodes.height;
        *self = Self::new(w, h, rng);
    }

    fn generate(&mut self, rng: &mut StdRng)
        ensures
            count_true(final(self).visited.cells@) >= count_true(old(self).visited.cells@),
            forall|p: Pos, q: Pos| #[trigger] old(self).nodes.open_between(p, q)
                ==> final(self).nodes.open_between(p, q),
            forall|p: Pos| old(self).visited.in_bounds(p) && #[trigger] old(self).visited.has(p)
                ==> final(self).visited.has(p),
            // one step moves the cursor to a neighbour, and carves the
            // wall just crossed exactly when that cell is entered for
            // the first time
            !old(self).done() ==> ({
                let t = final(self).current_pos;
                &&& lat_adj(old(self).current_pos, t)
                &&& old(self).nodes.in_bounds(t)
                &&& final(self).visited.has(t)
                &&& (old(self).visited.has(t) ==> final(self).nodes == old(self).nodes
                    && final(self).visited == old(self).visited)
                &&& (!old(self).visited.has(t) ==> carved_just(
                    old(self).nodes,
                    final(self).nodes,
                    old(self).current_pos,
                    t,
                ) && final(self).visited.cells@ == old(self).visited.cells@.update(
                    old(self).nodes.idx(t),
                    true,
                ))
            }),
    {
        let full = self.visited.is_full();
        if !full {
            proof {
                lemma_count_bounds(self.visited.cells@, self.visited.cells@.len() as int);
            }
            let d_opt = self.current_pos.get_random_neighbor(
                rng,
                self.nodes.width,
                self.nodes.height,
            );
            proof {
                // an unfinished grid has at least two cells, so the
                // cursor always has a neighbour
                if d_opt.is_none() {
                    assert(self.nodes.area() >= 2);
                    assert(false);
                }
            }
            if let Some(d) = d_opt {
                let t = d.get_pos();
                if !self.visited.contains(t) {
                    let cur = self.current_pos;
                    proof {
                        lemma_idx_bounds(self.nodes, t);
                        if self.nodes.open_between(cur, t) {
                            assert(self.visited.cells@[self.nodes.idx(t)]);
                        }
                    }
                    let ghost g1 = self.nodes;
                    let ghost vs1 = self.visited.cells@;
                    self.nodes.carve(cur, d);
                    self.visited.insert(t);
                    proof {
                        lemma_tree_extend(g1, self.nodes, vs1, cur, t);
                        assert forall|c: Pos| old(self).visited.in_bounds(c) && #[trigger] old(
                            self,
                        ).visited.has(c) implies self.visited.has(c) by {
                            lemma_idx_bounds(g1, c);
                        }
                        assert(self.visited.has(t));
                    }
                }
                self.current_pos = t;
                proof {
                    assert(lat_adj(old(self).current_pos, t));
                }
                push_recent(&mut self.last_posses, t, LAST_POSSES_LEN);
                // drop the trail the moment the maze is finished
                let now_full = self.visited.is_full();
                if now_full {
                    self.last_posses = Vec::new();
                }
            }
        }
    }
}

} // verus!
