//! Hunt-and-Kill: random-walk carving with a row-major hunting scan.
//!
//! In killing mode the walk carves to random unvisited neighbours until
//! it gets stuck.  In hunting mode a cursor scans the grid row-major;
//! it only ever advances past a cell whose neighbours are all visited,
//! so when the scan has passed the last row the whole grid is carved.

use vstd::prelude::*;
use rand::rngs::StdRng;
use crate::cellset::{CellSet, count_true, lemma_count_member};
use crate::grid::{Grid, Pos, carved_just, flat_idx, lat_adj, lemma_idx_bounds,
    lemma_neighbor_exists};
use crate::maze::Maze;
use crate::rng::rand_below;
use crate::tree::{lemma_cover_full, lemma_tree_complete, lemma_tree_extend, lemma_tree_start,
    tree_inv};

verus! {

/// `p` comes before `c` in row-major order.
pub open spec fn row_major_lt(p: Pos, c: Pos) -> bool {
    p.y < c.y || (p.y == c.y && p.x < c.x)
}

/// The hunt-and-kill engine.
pub struct HuntAndKill {
    pub nodes: Grid,
    pub visited: CellSet,
    pub hunting_pos: Pos,
    pub killing_pos: Pos,
    pub hunting: bool,
}

impl HuntAndKill {
    /// The hunting cursor is on the grid, or one row past it.
    pub open spec fn cursor_ok(&self) -> bool {
        ||| (self.hunting_pos.y < self.nodes.height && self.hunting_pos.x < self.nodes.width)
        ||| (self.hunting_pos.y == self.nodes.height && self.hunting_pos.x == 0)
    }

    /// Every cell the hunting cursor has passed had, and therefore
    /// still has, all its neighbours visited.
    pub open spec fn scanned_ok(&self) -> bool {
        forall|p: Pos, q: Pos| #[trigger] lat_adj(p, q) && self.nodes.in_bounds(p)
            && self.nodes.in_bounds(q) && row_major_lt(p, self.hunting_pos) ==> self.visited.has(q)
    }

    /// How much work is left: every step before completion strictly
    /// decreases it, so generation always terminates.  Unvisited cells
    /// dominate, then the cells the scan has not passed, then a mode
    /// term that falls on every switch between hunting and killing.
    pub open spec fn work_left(&self) -> int {
        3 * (self.nodes.area() - count_true(self.visited.cells@)) + 2 * (self.nodes.area()
            - flat_idx(self.nodes.width as int, self.hunting_pos)) + (if self.hunting {
            1int
        } else if self.visited.has_absent_neighbor(self.killing_pos) {
            0int
        } else {
            2int
        })
    }

    /// The cell after `c` in the row-major scan.
    pub open spec fn scan_next(&self, c: Pos) -> Pos {
        if c.x + 1 < self.nodes.width {
            Pos { x: (c.x + 1) as usize, y: c.y }
        } else {
            Pos { x: 0, y: (c.y + 1) as usize }
        }
    }
}

impl Maze for HuntAndKill {
    open spec fn wf(&self) -> bool {
        &&& self.visited.width == self.nodes.width
        &&& self.visited.height == self.nodes.height
        &&& self.visited.wf()
        &&& tree_inv(self.nodes, self.visited.cells@)
        &&& self.cursor_ok()
        &&& self.scanned_ok()
        &&& self.nodes.in_bounds(self.hunting_pos) ==> self.visited.has(self.hunting_pos)
        &&& !self.hunting ==> self.nodes.in_bounds(self.killing_pos) && self.visited.has(
            self.killing_pos,
        )
    }

    open spec fn grid_view(&self) -> Grid {
        self.nodes
    }

    fn grid(&self) -> (g: &Grid) {
        &self.nodes
    }

    open spec fn done(&self) -> bool {
        self.hunting_pos.y == self.nodes.height
    }

    fn new(width: usize, height: usize, _rng: &mut StdRng) -> (m: Self)
        ensures
            m.done() == (width * height == 1),
            m.hunting,
            m.killing_pos == (Pos { x: 0, y: 0 }),
            m.hunting_pos == (if width * height == 1 {
                Pos { x: 0, y: 1 }
            } else {
                Pos { x: 0, y: 0 }
            }),
            count_true(m.visited.cells@) == 1,
            forall|i: int| 0 <= i < m.visited.cells@.len() ==> m.visited.cells@[i] == (i == 0),
    {
        let nodes = Grid::new(width, height);
        let mut visited = CellSet::new(width, height);
        let start = Pos::new(0, 0);
        proof {
            lemma_idx_bounds(nodes, start);
        }
        visited.insert(start);
        proof {
            assert forall|i: int| 0 <= i < visited.cells@.len() implies visited.cells@[i] == (i
                == nodes.idx(start)) by {}
            lemma_tree_start(nodes, visited.cells@, start);
        }
        // a single cell is its own finished maze: the scan that would
        // start at it is already past the last row
        let hunting_pos: Pos = if width == 1 && height == 1 {
            Pos::new(0, 1)
        } else {
            Pos::new(0, 0)
        };
        let m = HuntAndKill { nodes, visited, hunting_pos, killing_pos: start, hunting: true };
        proof {
            assert((width * height == 1) == (width == 1 && height == 1)) by (nonlinear_arith)
                requires
                    1 <= width,
                    1 <= height,
            ;
            if width == 1 && height == 1 {
                assert forall|p: Pos, q: Pos| #[trigger] lat_adj(p, q) && m.nodes.in_bounds(p)
                    && m.nodes.in_bounds(q) && row_major_lt(p, m.hunting_pos)
                    implies m.visited.has(q) by {
                    assert(q == p);
                }
            }
        }
        m
    }

    fn complete(&self) -> (r: bool) {
        let r = self.hunting_pos.y == self.nodes.height;
        proof {
            if r {
                let w = self.nodes.width as int;
                let h = self.nodes.height as int;
                let vs = self.visited.cells@;
                assert forall|p: Pos| p.x < w && p.y < h implies vs[#[trigger] flat_idx(w, p)] by {
                    if self.nodes.area() >= 2 {
                        lemma_neighbor_exists(self.nodes, p);
                        let q = choose|q: Pos| #[trigger] lat_adj(p, q) && self.nodes.in_bounds(q);
                        assert(lat_adj(q, p));
                        assert(row_major_lt(q, self.hunting_pos));
                        assert(self.visited.has(p));
                        lemma_idx_bounds(self.nodes, p);
                    } else {
                        lemma_count_member(vs, vs.len() as int);
                        let i = choose|i: int| 0 <= i < vs.len() && vs[i];
                        assert(i == 0);
                        lemma_idx_bounds(self.nodes, p);
                        assert(flat_idx(w, p) == 0);
                    }
                }
                lemma_cover_full(w, h, vs);
                lemma_tree_complete(self.nodes, vs);
            }
        }
        r
    }

    fn reset(&mut self, rng: &mut StdRng)
        ensures
            final(self).done() == (old(self).grid_view().area() == 1),
            final(self).hunting,
            final(self).killing_pos == (Pos { x: 0, y: 0 }),
            final(self).hunting_pos == (if old(self).grid_view().area() == 1 {
                Pos { x: 0, y: 1 }
            } else {
                Pos { x: 0, y: 0 }
            }),
            count_true(final(self).visited.cells@) == 1,
            forall|i: int| 0 <= i < final(self).visited.cells@.len()
                ==> final(self).visited.cells@[i] == (i == 0),
    {
        let w = self.nodes.width;
        let h = self.nodes.height;
        *self = Self::new(w, h, rng);
    }

    fn generate(&mut self, rng: &mut StdRng)
        ensures
            count_true(final(self).visited.cells@) >= count_true(old(self).visited.cells@),
            !old(self).done() ==> final(self).work_left() < old(self).work_left(),
            forall|p: Pos, q: Pos| #[trigger] old(self).nodes.open_between(p, q)
                ==> final(self).nodes.open_between(p, q),
            forall|p: Pos| old(self).visited.in_bounds(p) && #[trigger] old(self).visited.has(p)
                ==> final(self).visited.has(p),
            // one step does exactly one of: begin killing at a viable
            // cursor cell, advance the scan past a spent cell, carve to
            // a fresh neighbour of the walk head, or fall back to
            // hunting when the walk is stuck
            !old(self).done() ==> ({
                ||| (old(self).hunting && final(self).hunting == false
                    && final(self).nodes == old(self).nodes
                    && final(self).visited == old(self).visited
                    && final(self).hunting_pos == old(self).hunting_pos
                    && final(self).killing_pos == old(self).hunting_pos
                    && (exists|q: Pos| #[trigger] lat_adj(old(self).hunting_pos, q)
                        && old(self).nodes.in_bounds(q) && !old(self).visited.has(q)))
                ||| (old(self).hunting && final(self).hunting
                    && final(self).nodes == old(self).nodes
                    && final(self).visited == old(self).visited
                    && final(self).killing_pos == old(self).killing_pos
                    && final(self).hunting_pos == old(self).scan_next(old(self).hunting_pos)
                    && (forall|q: Pos| #[trigger] lat_adj(old(self).hunting_pos, q)
                        && old(self).nodes.in_bounds(q) ==> old(self).visited.has(q)))
                ||| (!old(self).hunting && final(self).hunting == false
                    && final(self).hunting_pos == old(self).hunting_pos
                    && (exists|q: Pos| #[trigger] lat_adj(old(self).killing_pos, q)
                        && old(self).nodes.in_bounds(q) && !old(self).visited.has(q)
                        && carved_just(old(self).nodes, final(self).nodes, old(self).killing_pos, q)
                        && final(self).visited.cells@
                            == old(self).visited.cells@.update(old(self).nodes.idx(q), true)
                        && final(self).killing_pos == q))
                ||| (!old(self).hunting && final(self).hunting
                    && final(self).nodes == old(self).nodes
                    && final(self).visited == old(self).visited
                    && final(self).hunting_pos == old(self).hunting_pos
                    && final(self).killing_pos == old(self).killing_pos
                    && (forall|q: Pos| #[trigger] lat_adj(old(self).killing_pos, q)
                        && old(self).nodes.in_bounds(q) ==> old(self).visited.has(q)))
            }),
    {
        if self.hunting_pos.y == self.nodes.height {
            return;
        }
        if self.hunting {
            self.hunt_step();
        } else {
            self.kill_step(rng);
        }
    }
}

impl HuntAndKill {
    /// One unit of hunting: either a viable cell is found and killing
    /// begins there, or the scan cursor advances one cell.
    fn hunt_step(&mut self)
        requires
            old(self).wf(),
            old(self).hunting,
            old(self).hunting_pos.y < old(self).nodes.height,
        ensures
            final(self).wf(),
            final(self).nodes == old(self).nodes,
            final(self).visited == old(self).visited,
            final(self).work_left() < old(self).work_left(),
            ({
                ||| (final(self).hunting == false
                    && final(self).hunting_pos == old(self).hunting_pos
                    && final(self).killing_pos == old(self).hunting_pos
                    && (exists|q: Pos| #[trigger] lat_adj(old(self).hunting_pos, q)
                        && old(self).nodes.in_bounds(q) && !old(self).visited.has(q)))
                ||| (final(self).hunting
                    && final(self).killing_pos == old(self).killing_pos
                    && final(self).hunting_pos == old(self).scan_next(old(self).hunting_pos)
                    && (forall|q: Pos| #[trigger] lat_adj(old(self).hunting_pos, q)
                        && old(self).nodes.in_bounds(q) ==> old(self).visited.has(q)))
            }),
    {
        let hp = self.hunting_pos;
        let ghost w = self.nodes.width as int;
        let cands = hp.neighbors_not_in(&self.visited);
        if cands.len() > 0 {
            self.killing_pos = hp;
            self.hunting = false;
            proof {
                // the cursor cell can still reach fresh ground
                let q = cands@[0].target();
                assert(lat_adj(hp, q) && self.nodes.in_bounds(q) && !self.visited.has(q));
                assert(self.visited.has_absent_neighbor(hp));
            }
        } else {
            // every neighbour of the cursor cell is visited: advance
            // the scan
            let mut np = Pos::new(hp.x + 1, hp.y);
            if np.x >= self.nodes.width {
                np = Pos::new(0, hp.y + 1);
                proof {
                    assert((hp.y + 1) * w == hp.y * w + w) by (nonlinear_arith);
                }
            }
            proof {
                assert(flat_idx(w, np) == flat_idx(w, hp) + 1);
                // cells behind the old cursor keep their property, and
                // the cursor cell itself now satisfies it too
                assert forall|p: Pos, q: Pos| #[trigger] lat_adj(p, q) && self.nodes.in_bounds(p)
                    && self.nodes.in_bounds(q) && row_major_lt(p, np) implies self.visited.has(
                    q,
                ) by {
                    if !row_major_lt(p, hp) {
                        assert(p == hp);
                    }
                }
                // the next cursor cell is already visited
                if np.y < self.nodes.height {
                    if np.x == hp.x + 1 {
                        assert(lat_adj(hp, np));
                    } else {
                        let above = Pos { x: 0, y: hp.y };
                        assert(lat_adj(above, np));
                        if above == hp {
                            assert(self.visited.has(np));
                        } else {
                            assert(row_major_lt(above, hp));
                            assert(self.visited.has(np));
                        }
                    }
                }
            }
            self.hunting_pos = np;
        }
    }

    /// One unit of killing: carve to a random unvisited neighbour of
    /// the walk head, or fall back to hunting when the walk is stuck.
    fn kill_step(&mut self, rng: &mut StdRng)
        requires
            old(self).wf(),
            !old(self).hunting,
            old(self).hunting_pos.y < old(self).nodes.height,
        ensures
            final(self).wf(),
            final(self).nodes.width == old(self).nodes.width,
            final(self).nodes.height == old(self).nodes.height,
            final(self).hunting_pos == old(self).hunting_pos,
            count_true(final(self).visited.cells@) >= count_true(old(self).visited.cells@),
            final(self).work_left() < old(self).work_left(),
            forall|p: Pos, q: Pos| #[trigger] old(self).nodes.open_between(p, q)
                ==> final(self).nodes.open_between(p, q),
            forall|p: Pos| old(self).visited.in_bounds(p) && #[trigger] old(self).visited.has(p)
                ==> final(self).visited.has(p),
            ({
                ||| (final(self).hunting == false
                    && (exists|q: Pos| #[trigger] lat_adj(old(self).killing_pos, q)
                        && old(self).nodes.in_bounds(q) && !old(self).visited.has(q)
                        && carved_just(old(self).nodes, final(self).nodes, old(self).killing_pos, q)
                        && final(self).visited.cells@
                            == old(self).visited.cells@.update(old(self).nodes.idx(q), true)
                        && final(self).killing_pos == q))
                ||| (final(self).hunting
                    && final(self).nodes == old(self).nodes
                    && final(self).visited == old(self).visited
                    && final(self).killing_pos == old(self).killing_pos
                    && (forall|q: Pos| #[trigger] lat_adj(old(self).killing_pos, q)
                        && old(self).nodes.in_bounds(q) ==> old(self).visited.has(q)))
            }),
    {
        let kp = self.killing_pos;
        let cands = kp.neighbors_not_in(&self.visited);
        if cands.len() > 0 {
            let k = rand_below(rng, cands.len());
            let d = cands[k];
            let t = d.get_pos();
            proof {
                lemma_idx_bounds(self.nodes, t);
                if self.nodes.open_between(kp, t) {
                    assert(self.visited.cells@[self.nodes.idx(t)]);
                }
                // before the carve, the walk head could still move
                let q0 = cands@[0].target();
                assert(lat_adj(kp, q0) && self.visited.in_bounds(q0) && !self.visited.has(q0));
                assert(self.visited.has_absent_neighbor(kp));
            }
            let ghost g1 = self.nodes;
            let ghost vs1 = self.visited.cells@;
            self.nodes.carve(kp, d);
            self.visited.insert(t);
            self.killing_pos = t;
            proof {
                lemma_tree_extend(g1, self.nodes, vs1, kp, t);
                lemma_idx_bounds(g1, t);
                assert(self.visited.cells@ == vs1.update(g1.idx(t), true));
                // visited only grew
                assert forall|c: Pos| g1.in_bounds(c) && vs1[g1.idx(c)] implies self.visited.has(
                    c,
                ) by {
                    lemma_idx_bounds(g1, c);
                }
                assert forall|c: Pos| old(self).visited.in_bounds(c) && #[trigger] old(
                    self,
                ).visited.has(c) implies self.visited.has(c) by {
                    lemma_idx_bounds(g1, c);
                }
                assert(self.visited.has(t));
                assert(lat_adj(kp, t));
                assert forall|p: Pos, q: Pos| #[trigger] lat_adj(p, q) && self.nodes.in_bounds(p)
                    && self.nodes.in_bounds(q) && row_major_lt(p, self.hunting_pos)
                    implies self.visited.has(q) by {
                    assert(old(self).visited.has(q));
                    lemma_idx_bounds(g1, q);
                    assert(vs1[g1.idx(q)]);
                    assert(self.visited.has(q));
                }
                if self.nodes.in_bounds(self.hunting_pos) {
                    assert(old(self).visited.has(self.hunting_pos));
                    lemma_idx_bounds(g1, self.hunting_pos);
                    assert(self.visited.has(self.hunting_pos));
                }
                assert(self.wf());
                // the carve pays for any mode-term rise
                assert(count_true(self.visited.cells@) == count_true(vs1) + 1);
            }
        } else {
            proof {
                // the walk is stuck: its head has no fresh neighbour
                if self.visited.has_absent_neighbor(kp) {
                    let q = choose|q: Pos| #[trigger] lat_adj(kp, q) && self.visited.in_bounds(q)
                        && !self.visited.has(q);
                    assert(false);
                }
            }
            self.hunting = true;
        }
    }
}

} // verus!
