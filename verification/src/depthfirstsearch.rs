//! Recursive backtracker: depth-first carving with an explicit stack.
//!
//! The stack holds the walk from the start to the current cell.  A step
//! pops the top cell; if it still has an unvisited neighbour, one is
//! carved to at random and both cells are pushed back, otherwise the
//! cell stays popped (a backtrack).  A visited cell that has left the
//! stack has no unvisited neighbours left, which is what guarantees
//! that an empty stack means the whole grid was carved.

use vstd::prelude::*;
use rand::rngs::StdRng;
use crate::cellset::{CellSet, count_true};
use crate::grid::{Grid, Pos, carved_just, flat_idx, lat_adj, lemma_flat_idx_injective,
    lemma_idx_bounds};
use crate::maze::Maze;
use crate::rng::rand_below;
use crate::tree::{lemma_boundary, lemma_cover_full, lemma_member_pos,
    lemma_tree_complete, lemma_tree_extend, lemma_tree_start, tree_inv};

verus! {

/// The depth-first-search engine.
pub struct DepthFirstSearch {
    pub nodes: Grid,
    pub visited: CellSet,
    pub stack: Vec<Pos>,
}

impl DepthFirstSearch {
    /// Every stack cell is on the grid and already visited.
    pub open spec fn stack_ok(&self) -> bool {
        forall|k: int| 0 <= k < self.stack@.len() ==> self.nodes.in_bounds(#[trigger] self.stack@[k])
            && self.visited.has(self.stack@[k])
    }

    /// No cell sits on the stack twice.
    pub open spec fn stack_distinct(&self) -> bool {
        forall|k1: int, k2: int| 0 <= k1 < k2 < self.stack@.len() ==> self.stack@[k1]
            != self.stack@[k2]
    }

    /// How much work is left: every step before completion strictly
    /// decreases it, so generation always terminates.
    pub open spec fn work_left(&self) -> int {
        2 * (self.nodes.area() - count_true(self.visited.cells@)) + self.stack@.len()
    }

    /// A visited cell that has left the stack has no unvisited
    /// neighbour left.
    pub open spec fn closure_ok(&self) -> bool {
        forall|p: Pos, q: Pos|
            #![trigger self.visited.has(p), lat_adj(p, q)]
            self.nodes.in_bounds(p) && self.visited.has(p) && !self.stack@.contains(p) && lat_adj(
                p,
                q,
            ) && self.nodes.in_bounds(q) ==> self.visited.has(q)
    }
}

impl Maze for DepthFirstSearch {
    open spec fn wf(&self) -> bool {
        &&& self.visited.width == self.nodes.width
        &&& self.visited.height == self.nodes.height
        &&& self.visited.wf()
        &&& tree_inv(self.nodes, self.visited.cells@)
        &&& self.stack_ok()
        &&& self.stack_distinct()
        &&& self.closure_ok()
    }

    open spec fn grid_view(&self) -> Grid {
        self.nodes
    }

    fn grid(&self) -> (g: &Grid) {
        &self.nodes
    }

    open spec fn done(&self) -> bool {
        self.stack@.len() == 0
    }

    fn new(width: usize, height: usize, rng: &mut StdRng) -> (m: Self)
        ensures
            m.done() == (width * height == 1),
            count_true(m.visited.cells@) == 1,
            width * height > 1 ==> m.stack@.len() == 1 && m.visited.has(m.stack@[0]),
    {
        let nodes = Grid::new(width, height);
        let mut visited = CellSet::new(width, height);
        let sx = rand_below(rng, width);
        let sy = rand_below(rng, height);
        let start = Pos::new(sx, sy);
        proof {
            lemma_idx_bounds(nodes, start);
        }
        visited.insert(start);
        // a single cell is a finished maze on its own: there is nothing
        // to walk to, so the walk does not start
        let mut stack: Vec<Pos> = Vec::new();
        if width > 1 || height > 1 {
            stack.push(start);
        }
        proof {
            assert forall|i: int| 0 <= i < visited.cells@.len() implies visited.cells@[i] == (i
                == nodes.idx(start)) by {}
            lemma_tree_start(nodes, visited.cells@, start);
        }
        let m = DepthFirstSearch { nodes, visited, stack };
        proof {
            assert((width * height == 1) == (width == 1 && height == 1)) by (nonlinear_arith)
                requires
                    1 <= width,
                    1 <= height,
            ;
            assert forall|p: Pos, q: Pos|
                #![trigger m.visited.has(p), lat_adj(p, q)]
                m.nodes.in_bounds(p) && m.visited.has(p) && !m.stack@.contains(p) && lat_adj(p, q)
                    && m.nodes.in_bounds(q) implies m.visited.has(q) by {
                lemma_idx_bounds(m.nodes, p);
                lemma_flat_idx_injective(m.nodes.width as int, m.nodes.height as int, p, start);
                assert(p == start);
                if width > 1 || height > 1 {
                    assert(m.stack@[0] == start);
                    assert(m.stack@.contains(start));
                } else {
                    // on one cell, the only candidate for q is p itself,
                    // and a cell is not its own neighbour
                    assert(q == p);
                }
            }
        }
        m
    }

    fn complete(&self) -> (r: bool) {
        let r = self.stack.len() == 0;
        proof {
            if r {
                let w = self.nodes.width as int;
                let h = self.nodes.height as int;
                let vs = self.visited.cells@;
                assert forall|p: Pos| p.x < w && p.y < h implies vs[#[trigger] flat_idx(w, p)] by {
                    if !vs[flat_idx(w, p)] {
                        lemma_member_pos(w, h, vs);
                        let a = choose|a: Pos| a.x < w && a.y < h && vs[#[trigger] flat_idx(w, a)];
                        lemma_boundary(w, h, vs, a, p);
                        let (u, v) = choose|u: Pos, v: Pos| #[trigger] lat_adj(u, v) && u.x < w
                            && u.y < h && v.x < w && v.y < h && vs[flat_idx(w, u)] && !vs[flat_idx(
                            w,
                            v,
                        )];
                        assert(self.visited.has(u));
                        assert(!self.stack@.contains(u));
                        assert(self.visited.has(v));
                        assert(false);
                    }
                }
                lemma_cover_full(w, h, vs);
                lemma_tree_complete(self.nodes, vs);
            }
        }
        r
    }

    fn reset(&mut self, rng: &mut StdRng)
        ensures
            final(self).done() == (old(self).grid_view().area() == 1),
            count_true(final(self).visited.cells@) == 1,
    {
        let w = self.nodes.width;
        let h = self.nodes.height;
        *self = Self::new(w, h, rng);
    }

    fn generate(&mut self, rng: &mut StdRng)
        ensures
            count_true(final(self).visited.cells@) >= count_true(old(self).visited.cells@),
            !old(self).done() ==> final(self).work_left() < old(self).work_left(),
            forall|p: Pos, q: Pos| #[trigger] old(self).nodes.open_between(p, q)
                ==> final(self).nodes.open_between(p, q),
            forall|p: Pos| old(self).visited.in_bounds(p) && #[trigger] old(self).visited.has(p)
                ==> final(self).visited.has(p),
            // one step either backtracks off a spent cell or carves to
            // a fresh neighbour of the stack top and explores it
            !old(self).done() ==> ({
                let s = old(self).stack@[old(self).stack@.len() - 1];
                ||| (final(self).nodes == old(self).nodes
                    && final(self).visited == old(self).visited
                    && final(self).stack@ == old(self).stack@.drop_last()
                    && (forall|q: Pos| #[trigger] lat_adj(s, q) && old(self).nodes.in_bounds(q)
                        ==> old(self).visited.has(q)))
                ||| (exists|q: Pos| #[trigger] lat_adj(s, q)
                    && old(self).nodes.in_bounds(q)
                    && !old(self).visited.has(q)
                    && carved_just(old(self).nodes, final(self).nodes, s, q)
                    && final(self).visited.cells@
                        == old(self).visited.cells@.update(old(self).nodes.idx(q), true)
                    && final(self).stack@ == old(self).stack@.push(q))
            }),
    {
        if self.stack.len() == 0 {
            return;
        }
        let popped = self.stack.pop();
        if let Some(pos) = popped {
            let ghost stack0 = self.stack@;
            let ghost w = self.nodes.width as int;
            let ghost h = self.nodes.height as int;
            let cands = pos.neighbors_not_in(&self.visited);
            if cands.len() > 0 {
                let k = rand_below(rng, cands.len());
                let d = cands[k];
                let t = d.get_pos();
                proof {
                    lemma_idx_bounds(self.nodes, t);
                    if self.nodes.open_between(pos, t) {
                        assert(self.visited.cells@[self.nodes.idx(t)]);
                    }
                }
                let ghost g1 = self.nodes;
                let ghost vs1 = self.visited.cells@;
                self.nodes.carve(pos, d);
                self.visited.insert(t);
                self.stack.push(pos);
                self.stack.push(t);
                proof {
                    lemma_tree_extend(g1, self.nodes, vs1, pos, t);
                    let m = *self;
                    assert(m.stack@ == stack0.push(pos).push(t));
                    // the step's visible effect: carve to the fresh
                    // neighbour `t` and push it
                    assert(lat_adj(pos, t));
                    assert(old(self).stack@ =~= stack0.push(pos));
                    assert(m.stack@ =~= old(self).stack@.push(t));
                    assert(m.visited.cells@ == vs1.update(g1.idx(t), true));
                    assert forall|c: Pos| old(self).visited.in_bounds(c) && #[trigger] old(
                        self,
                    ).visited.has(c) implies m.visited.has(c) by {
                        lemma_idx_bounds(g1, c);
                    }
                    // a visited cell stays visited when another is added
                    assert forall|c: Pos| g1.in_bounds(c) && vs1[g1.idx(c)] implies m.visited.has(
                        c,
                    ) by {
                        lemma_idx_bounds(g1, c);
                    }
                    assert(m.visited.has(t));
                    // the old stack cells are still on the stack and visited
                    assert forall|k2: int| 0 <= k2 < m.stack@.len() implies m.nodes.in_bounds(
                        #[trigger] m.stack@[k2],
                    ) && m.visited.has(m.stack@[k2]) by {
                        if k2 < stack0.len() {
                            assert(m.stack@[k2] == old(self).stack@[k2]);
                            assert(old(self).visited.has(m.stack@[k2]));
                        } else if k2 == stack0.len() {
                            assert(m.stack@[k2] == pos);
                            assert(old(self).stack@[old(self).stack@.len() - 1] == pos);
                        } else {
                            assert(m.stack@[k2] == t);
                        }
                    }
                    // the new top is a fresh cell: the stack stays
                    // duplicate-free
                    assert forall|k1: int, k2: int| 0 <= k1 < k2 < m.stack@.len()
                        implies m.stack@[k1] != m.stack@[k2] by {
                        if k2 < old(self).stack@.len() {
                            assert(m.stack@[k1] == old(self).stack@[k1]);
                            assert(m.stack@[k2] == old(self).stack@[k2]);
                        } else {
                            assert(m.stack@[k2] == t);
                            assert(!vs1[g1.idx(t)]);
                            let c = m.stack@[k1];
                            if k1 < stack0.len() {
                                assert(c == old(self).stack@[k1]);
                                assert(old(self).visited.has(c));
                            } else {
                                assert(c == pos);
                                assert(old(self).visited.has(pos));
                            }
                            lemma_idx_bounds(g1, c);
                            if c == t {
                                assert(vs1[g1.idx(t)]);
                            }
                        }
                    }
                    // every cell off the new stack was off the old one
                    assert forall|p: Pos, q: Pos|
                        #![trigger m.visited.has(p), lat_adj(p, q)]
                        m.nodes.in_bounds(p) && m.visited.has(p) && !m.stack@.contains(p)
                            && lat_adj(p, q) && m.nodes.in_bounds(q) implies m.visited.has(q) by {
                        lemma_idx_bounds(g1, p);
                        lemma_idx_bounds(g1, q);
                        if g1.idx(p) == g1.idx(t) {
                            lemma_flat_idx_injective(w, h, p, t);
                            assert(m.stack@[m.stack@.len() - 1] == t);
                            assert(m.stack@.contains(p));
                        } else {
                            assert(vs1[g1.idx(p)]);
                            assert(old(self).visited.has(p));
                            assert forall|k2: int| 0 <= k2 < old(self).stack@.len() implies old(
                                self,
                            ).stack@[k2] != p by {
                                if k2 < stack0.len() {
                                    assert(m.stack@[k2] == old(self).stack@[k2]);
                                    assert(m.stack@.contains(m.stack@[k2]));
                                } else {
                                    assert(old(self).stack@[k2] == pos);
                                    assert(m.stack@[stack0.len() as int] == pos);
                                    assert(m.stack@.contains(pos));
                                }
                            }
                            assert(!old(self).stack@.contains(p));
                            assert(old(self).visited.has(q));
                            lemma_idx_bounds(g1, q);
                        }
                    }
                }
            } else {
                proof {
                    let m = *self;
                    // the spent cell stays popped; nothing else moved
                    assert(m.stack@ =~= old(self).stack@.drop_last());
                    assert forall|q: Pos| #[trigger] lat_adj(pos, q) && old(self).nodes.in_bounds(
                        q,
                    ) implies old(self).visited.has(q) by {}
                    assert forall|k2: int| 0 <= k2 < m.stack@.len() implies m.nodes.in_bounds(
                        #[trigger] m.stack@[k2],
                    ) && m.visited.has(m.stack@[k2]) by {
                        assert(m.stack@[k2] == old(self).stack@[k2]);
                    }
                    assert forall|p: Pos, q: Pos|
                        #![trigger m.visited.has(p), lat_adj(p, q)]
                        m.nodes.in_bounds(p) && m.visited.has(p) && !m.stack@.contains(p)
                            && lat_adj(p, q) && m.nodes.in_bounds(q) implies m.visited.has(q) by {
                        if p == pos {
                            // the popped cell has no unvisited
                            // neighbour left: otherwise the candidate
                            // list would not have been empty
                            assert(self.visited.has(q));
                        } else {
                            assert forall|k2: int| 0 <= k2 < old(self).stack@.len() implies old(
                                self,
                            ).stack@[k2] != p by {
                                if k2 < stack0.len() {
                                    assert(m.stack@[k2] == old(self).stack@[k2]);
                                    assert(m.stack@.contains(m.stack@[k2]));
                                } else {
                                    assert(old(self).stack@[k2] == pos);
                                }
                            }
                            assert(!old(self).stack@.contains(p));
                        }
                    }
                }
            }
        }
    }
}

} // verus!
