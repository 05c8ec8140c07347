//! Depth-first search over a finished maze's wall state.
//!
//! The solver is handed a grid, a start cell and an end cell.  Each
//! call of [`Solver::solve`] explores one unvisited open neighbour; the
//! stack always holds the open path from the start to the current cell.
//! [`Solver::run`] drives the search to exhaustion and answers exactly
//! whether the two cells are joined through cleared walls — on a
//! finished maze, always with success.

use vstd::prelude::*;
use crate::cellset::{CellSet, count_true, lemma_count_bounds};
use crate::grid::{Direction, Grid, Pos, dir_ok, lemma_flat_idx_injective, lemma_idx_bounds};
use crate::path::{connected, is_path, lemma_connected_adj, lemma_connected_trans};
use crate::tree::is_spanning_tree;

verus! {

/// The legal moves from `pos` that cross a cleared wall into an
/// unvisited cell.
fn open_unvisited_neighbors(maze: &Grid, visited: &CellSet, pos: Pos) -> (r: Vec<Direction>)
    requires
        maze.wf(),
        visited.wf(),
        visited.width == maze.width,
        visited.height == maze.height,
        maze.in_bounds(pos),
    ensures
        forall|i: int| 0 <= i < r@.len() ==> dir_ok(pos, #[trigger] r@[i]) && maze.open_between(
            pos,
            r@[i].target(),
        ) && !visited.has(r@[i].target()),
        forall|q: Pos| #[trigger] maze.open_between(pos, q) && !visited.has(q) ==> exists|i: int|
            0 <= i < r@.len() && (#[trigger] r@[i]).target() == q,
{
    let all = pos.get_neighbors(maze.width, maze.height);
    let mut out: Vec<Direction> = Vec::new();
    let mut i: usize = 0;
    while i < all.len()
        invariant
            maze.wf(),
            visited.wf(),
            visited.width == maze.width,
            visited.height == maze.height,
            maze.in_bounds(pos),
            i <= all@.len(),
            forall|j: int| 0 <= j < all@.len() ==> dir_ok(pos, #[trigger] all@[j])
                && maze.in_bounds(all@[j].target()),
            forall|k: int| 0 <= k < out@.len() ==> dir_ok(pos, #[trigger] out@[k])
                && maze.open_between(pos, out@[k].target()) && !visited.has(out@[k].target()),
            forall|j: int| 0 <= j < i && maze.open_between(pos, (#[trigger] all@[j]).target())
                && !visited.has(all@[j].target()) ==> exists|k: int|
                0 <= k < out@.len() && out@[k] == all@[j],
        decreases all@.len() - i,
    {
        let d = all[i];
        let ghost out0 = out@;
        if maze.is_open(pos, d) && !visited.contains(d.get_pos()) {
            out.push(d);
        }
        proof {
            assert forall|j: int| 0 <= j < i + 1 && maze.open_between(
                pos,
                (#[trigger] all@[j]).target(),
            ) && !visited.has(all@[j].target()) implies exists|k: int|
                0 <= k < out@.len() && out@[k] == all@[j] by {
                if j < i {
                    let k = choose|k: int| 0 <= k < out0.len() && out0[k] == all@[j];
                    assert(out@[k] == all@[j]);
                } else {
                    assert(out@[out@.len() - 1] == d);
                }
            }
        }
        i = i + 1;
    }
    proof {
        assert forall|q: Pos| #[trigger] maze.open_between(pos, q) && !visited.has(q)
            implies exists|k: int| 0 <= k < out@.len() && (#[trigger] out@[k]).target() == q by {
            assert(crate::grid::lat_adj(pos, q));
            let j = choose|j: int| 0 <= j < all@.len() && (#[trigger] all@[j]).target() == q;
            let k = choose|k: int| 0 <= k < out@.len() && #[trigger] out@[k] == all@[j];
            assert(out@[k].target() == q);
        }
    }
    out
}

/// Every cell on a path into a region closed under open walls lies in
/// that region.
proof fn lemma_path_stays(g: Grid, cs: CellSet, s: Seq<Pos>, i: int)
    requires
        cs.width == g.width,
        cs.height == g.height,
        is_path(g, s),
        s.len() >= 1,
        cs.has(s[0]),
        forall|p: Pos, q: Pos|
            #![trigger cs.has(p), g.open_between(p, q)]
            cs.has(p) && g.open_between(p, q) ==> cs.has(q),
        0 <= i < s.len(),
    ensures
        cs.has(s[i]),
    decreases i,
{
    if i > 0 {
        lemma_path_stays(g, cs, s, i - 1);
        let j = i - 1;
        assert(0 <= j < s.len() - 1);
        assert(g.open_between(s[j], s[j + 1]));
        assert(s[j + 1] == s[i]);
    }
}

/// A region closed under open walls that holds `a` but not `b`
/// separates them: no path across cleared walls joins them.
proof fn lemma_closed_region(g: Grid, cs: CellSet, a: Pos, b: Pos)
    requires
        cs.width == g.width,
        cs.height == g.height,
        cs.has(a),
        !cs.has(b),
        forall|p: Pos, q: Pos|
            #![trigger cs.has(p), g.open_between(p, q)]
            cs.has(p) && g.open_between(p, q) ==> cs.has(q),
    ensures
        !connected(g, a, b),
{
    if connected(g, a, b) {
        let s = choose|s: Seq<Pos>| #[trigger] is_path(g, s) && s.len() >= 1 && s[0] == a
            && s[s.len() - 1] == b;
        lemma_path_stays(g, cs, s, s.len() - 1);
    }
}

/// The depth-first maze solver.
pub struct Solver {
    pub maze: Grid,
    pub stack: Vec<Pos>,
    pub visited: CellSet,
    pub start_pos: Pos,
    pub end_pos: Pos,
}

impl Solver {
    /// Every stack cell is on the grid and visited.
    pub open spec fn stack_ok(&self) -> bool {
        forall|k: int| 0 <= k < self.stack@.len() ==> self.maze.in_bounds(#[trigger] self.stack@[k])
            && self.visited.has(self.stack@[k])
    }

    /// No cell sits on the stack twice.
    pub open spec fn stack_distinct(&self) -> bool {
        forall|k1: int, k2: int| 0 <= k1 < k2 < self.stack@.len() ==> self.stack@[k1]
            != self.stack@[k2]
    }

    /// The stack is an open walk that begins at the start cell.
    pub open spec fn stack_path(&self) -> bool {
        &&& forall|k: int| 0 <= k < self.stack@.len() - 1 ==> self.maze.open_between(
            #[trigger] self.stack@[k],
            self.stack@[k + 1],
        )
        &&& self.stack@.len() > 0 ==> self.stack@[0] == self.start_pos
    }

    /// A visited cell that has left the stack has no unvisited open
    /// neighbour left.
    pub open spec fn closure_ok(&self) -> bool {
        forall|p: Pos, q: Pos|
            #![trigger self.visited.has(p), self.maze.open_between(p, q)]
            self.visited.has(p) && !self.stack@.contains(p) && self.maze.open_between(p, q)
                ==> self.visited.has(q)
    }

    pub open spec fn wf(&self) -> bool {
        &&& self.maze.wf()
        &&& self.visited.width == self.maze.width
        &&& self.visited.height == self.maze.height
        &&& self.visited.wf()
        &&& self.maze.in_bounds(self.start_pos)
        &&& self.maze.in_bounds(self.end_pos)
        &&& self.start_pos != self.end_pos
        &&& self.visited.has(self.start_pos)
        &&& !self.visited.has(self.end_pos)
        &&& self.stack_ok()
        &&& self.stack_distinct()
        &&& self.stack_path()
        &&& self.closure_ok()
    }

    /// How much work is left: an upper bound that every unsuccessful
    /// step strictly decreases.
    pub open spec fn measure(&self) -> int {
        2 * (self.maze.area() - count_true(self.visited.cells@)) + self.stack@.len()
    }

    /// A fresh search of `maze` from `start_pos` toward `end_pos`.
    pub fn new(maze: Grid, start_pos: Pos, end_pos: Pos) -> (s: Solver)
        requires
            maze.wf(),
            maze.in_bounds(start_pos),
            maze.in_bounds(end_pos),
            start_pos != end_pos,
        ensures
            s.wf(),
            s.maze == maze,
            s.start_pos == start_pos,
            s.end_pos == end_pos,
            s.stack@.len() == 1,
            s.stack@[0] == start_pos,
            count_true(s.visited.cells@) == 1,
    {
        let mut visited = CellSet::new(maze.width, maze.height);
        proof {
            lemma_idx_bounds(maze, start_pos);
            lemma_idx_bounds(maze, end_pos);
        }
        visited.insert(start_pos);
        let mut stack: Vec<Pos> = Vec::new();
        stack.push(start_pos);
        let s = Solver { maze, stack, visited, start_pos, end_pos };
        proof {
            let w = maze.width as int;
            let h = maze.height as int;
            if s.visited.has(end_pos) {
                lemma_flat_idx_injective(w, h, end_pos, start_pos);
            }
            assert(s.stack@[0] == start_pos);
            assert forall|p: Pos, q: Pos|
                #![trigger s.visited.has(p), s.maze.open_between(p, q)]
                s.visited.has(p) && !s.stack@.contains(p) && s.maze.open_between(p, q)
                implies s.visited.has(q) by {
                lemma_idx_bounds(maze, p);
                lemma_flat_idx_injective(w, h, p, start_pos);
                assert(p == start_pos);
                assert(s.stack@.contains(start_pos));
            }
        }
        s
    }

    /// Search the given grid instead, restarting from the same cells.
    pub fn set_maze(&mut self, maze: Grid)
        requires
            old(self).wf(),
            maze.wf(),
            maze.in_bounds(old(self).start_pos),
            maze.in_bounds(old(self).end_pos),
        ensures
            final(self).wf(),
            final(self).maze == maze,
            final(self).start_pos == old(self).start_pos,
            final(self).end_pos == old(self).end_pos,
            final(self).stack@.len() == 1,
            count_true(final(self).visited.cells@) == 1,
    {
        let start_pos = self.start_pos;
        let end_pos = self.end_pos;
        *self = Solver::new(maze, start_pos, end_pos);
    }

    /// One unit of search work.  A `true` answer means the end cell was
    /// found: the stack then holds the open path from the start to a
    /// cell that is open to the end.
    pub fn solve(&mut self) -> (r: bool)
        requires
            old(self).wf(),
        ensures
            final(self).wf(),
            final(self).maze == old(self).maze,
            final(self).start_pos == old(self).start_pos,
            final(self).end_pos == old(self).end_pos,
            r ==> final(self).stack@.len() >= 1 && final(self).maze.open_between(
                final(self).stack@[final(self).stack@.len() - 1],
                final(self).end_pos,
            ) && connected(final(self).maze, final(self).start_pos, final(self).end_pos),
            r ==> final(self).measure() == old(self).measure(),
            !r && old(self).stack@.len() > 0 ==> final(self).measure() < old(self).measure(),
            !r && old(self).stack@.len() == 0 ==> *final(self) == *old(self),
            // search progress is never undone
            forall|p: Pos| old(self).visited.in_bounds(p) && #[trigger] old(self).visited.has(p)
                ==> final(self).visited.has(p),
            // a successful call is a no-op: the popped cell goes back,
            // so the solver's observable state is unchanged
            r ==> final(self).stack@ == old(self).stack@ && final(self).visited == old(
                self,
            ).visited,
            // otherwise one step either backtracks off a spent cell or
            // crosses a cleared wall into one fresh cell, pushing it
            !r && old(self).stack@.len() > 0 ==> ({
                let top = old(self).stack@[old(self).stack@.len() - 1];
                ||| (final(self).stack@ == old(self).stack@.drop_last()
                    && final(self).visited == old(self).visited
                    && (forall|q: Pos| #[trigger] old(self).maze.open_between(top, q)
                        ==> old(self).visited.has(q)))
                ||| (exists|q: Pos| #[trigger] old(self).maze.open_between(top, q)
                    && !old(self).visited.has(q)
                    && q != old(self).end_pos
                    && final(self).visited.cells@
                        == old(self).visited.cells@.update(old(self).maze.idx(q), true)
                    && final(self).stack@ == old(self).stack@.push(q))
            }),
            // with the end one open step from the stack top, the step
            // reports success; in particular a call after a success
            // succeeds again
            old(self).stack@.len() >= 1 && old(self).maze.open_between(
                old(self).stack@[old(self).stack@.len() - 1],
                old(self).end_pos,
            ) ==> r,
    {
        if self.stack.len() == 0 {
            return false;
        }
        let popped = self.stack.pop();
        let ghost w = self.maze.width as int;
        let ghost h = self.maze.height as int;
        if let Some(pos) = popped {
            let ghost stack0 = self.stack@;
            let cands = open_unvisited_neighbors(&self.maze, &self.visited, pos);
            if cands.len() == 0 {
                // dead end: the cell stays popped; in particular the
                // end cell was not one open step away
                proof {
                    if self.maze.open_between(pos, self.end_pos) {
                        assert(!self.visited.has(self.end_pos));
                        assert(false);
                    }
                    let m = *self;
                    // the spent cell stays popped, and it had no open
                    // unvisited neighbour left
                    assert(m.stack@ =~= old(self).stack@.drop_last());
                    assert forall|q: Pos| #[trigger] old(self).maze.open_between(pos, q)
                        implies old(self).visited.has(q) by {}
                    assert forall|k2: int| 0 <= k2 < m.stack@.len() implies m.maze.in_bounds(
                        #[trigger] m.stack@[k2],
                    ) && m.visited.has(m.stack@[k2]) by {
                        assert(m.stack@[k2] == old(self).stack@[k2]);
                    }
                    assert forall|p: Pos, q: Pos|
                        #![trigger m.visited.has(p), m.maze.open_between(p, q)]
                        m.visited.has(p) && !m.stack@.contains(p) && m.maze.open_between(p, q)
                        implies m.visited.has(q) by {
                        if p == pos {
                            assert(self.visited.has(q));
                        } else {
                            assert forall|k2: int| 0 <= k2 < old(self).stack@.len() implies old(
                                self,
                            ).stack@[k2] != p by {
                                if k2 < stack0.len() {
                                    assert(m.stack@[k2] == old(self).stack@[k2]);
                                    assert(m.stack@.contains(m.stack@[k2]));
                                } else {
                                    assert(old(self).stack@[k2] == pos);
                                }
                            }
                            assert(!old(self).stack@.contains(p));
                        }
                    }
                }
                return false;
            }
            // if any candidate is the end cell, report success at
            // once, so a call after success succeeds again
            let mut j: usize = 0;
            let mut end_at: usize = cands.len();
            while j < cands.len()
                invariant
                    j <= cands@.len(),
                    end_at <= cands@.len(),
                    end_at == cands@.len() ==> forall|k: int| 0 <= k < j ==> (
                    #[trigger] cands@[k]).target() != self.end_pos,
                    end_at < cands@.len() ==> cands@[end_at as int].target() == self.end_pos,
                decreases cands@.len() - j,
            {
                let q = cands[j].get_pos();
                if end_at == cands.len() && q.x == self.end_pos.x && q.y == self.end_pos.y {
                    end_at = j;
                }
                j = j + 1;
            }
            if end_at < cands.len() {
                // found: restore the current cell so the stack is the
                // discovered path
                proof {
                    assert(self.maze.open_between(pos, self.end_pos));
                }
                self.stack.push(pos);
                proof {
                    let m = *self;
                    assert(m.stack@ =~= old(self).stack@);
                    assert(m.stack@[m.stack@.len() - 1] == pos);
                    assert(m.maze.open_between(pos, m.end_pos));
                    // the stack is an open walk from the start to the
                    // current cell, and one more open wall reaches the
                    // end
                    assert(is_path(m.maze, m.stack@));
                    assert(m.stack@[0] == m.start_pos);
                    assert(connected(m.maze, m.start_pos, pos)) by {
                        assert(is_path(m.maze, m.stack@) && m.stack@.len() >= 1 && m.stack@[0]
                            == m.start_pos && m.stack@[m.stack@.len() - 1] == pos);
                    }
                    lemma_connected_adj(m.maze, pos, m.end_pos);
                    lemma_connected_trans(m.maze, m.start_pos, pos, m.end_pos);
                }
                return true;
            }
            let d = cands[0];
            let t = d.get_pos();
            proof {
                assert(cands@[0].target() != self.end_pos);
                assert(t != self.end_pos);
                // the end cell was not one open step away, or the scan
                // would have found it
                if self.maze.open_between(pos, self.end_pos) {
                    assert(!self.visited.has(self.end_pos));
                    let kk = choose|k: int| 0 <= k < cands@.len() && (#[trigger] cands@[k]).target()
                        == self.end_pos;
                    assert(cands@[kk].target() != self.end_pos);
                    assert(false);
                }
            }
            // explore one fresh cell
            proof {
                lemma_idx_bounds(self.maze, t);
                lemma_idx_bounds(self.maze, self.end_pos);
                lemma_count_bounds(self.visited.cells@, self.visited.cells@.len() as int);
            }
            let ghost vs1 = self.visited.cells@;
            self.visited.insert(t);
            self.stack.push(pos);
            self.stack.push(t);
            proof {
                // the step's visible effect: one fresh cell explored
                assert(old(self).stack@ =~= stack0.push(pos));
                assert(self.stack@ =~= old(self).stack@.push(t));
                assert(self.maze.open_between(pos, t));
                assert(self.visited.cells@ == vs1.update(self.maze.idx(t), true));
                assert forall|p2: Pos| old(self).visited.in_bounds(p2) && #[trigger] old(
                    self,
                ).visited.has(p2) implies self.visited.has(p2) by {
                    lemma_idx_bounds(self.maze, p2);
                }
                let m = *self;
                let g1 = m.maze;
                assert(m.stack@ == stack0.push(pos).push(t));
                assert forall|c: Pos| g1.in_bounds(c) && vs1[g1.idx(c)] implies m.visited.has(
                    c,
                ) by {
                    lemma_idx_bounds(g1, c);
                }
                assert(m.visited.has(t));
                // the end cell is still outside the visited region
                if m.visited.has(m.end_pos) {
                    lemma_flat_idx_injective(w, h, m.end_pos, t);
                }
                assert forall|k2: int| 0 <= k2 < m.stack@.len() implies m.maze.in_bounds(
                    #[trigger] m.stack@[k2],
                ) && m.visited.has(m.stack@[k2]) by {
                    if k2 < stack0.len() {
                        assert(m.stack@[k2] == old(self).stack@[k2]);
                        assert(old(self).visited.has(m.stack@[k2]));
                    } else if k2 == stack0.len() {
                        assert(m.stack@[k2] == pos);
                        assert(old(self).stack@[old(self).stack@.len() - 1] == pos);
                    } else {
                        assert(m.stack@[k2] == t);
                    }
                }
                assert forall|k1: int, k2: int| 0 <= k1 < k2 < m.stack@.len() implies m.stack@[k1]
                    != m.stack@[k2] by {
                    if k2 < old(self).stack@.len() {
                        assert(m.stack@[k1] == old(self).stack@[k1]);
                        assert(m.stack@[k2] == old(self).stack@[k2]);
                    } else {
                        assert(m.stack@[k2] == t);
                        assert(!vs1[g1.idx(t)]);
                        let c = m.stack@[k1];
                        if k1 < stack0.len() {
                            assert(c == old(self).stack@[k1]);
                            assert(old(self).visited.has(c));
                        } else {
                            assert(c == pos);
                            assert(old(self).visited.has(pos));
                        }
                        lemma_idx_bounds(g1, c);
                        if c == t {
                            assert(vs1[g1.idx(t)]);
                        }
                    }
                }
                // the walk structure of the stack is kept
                assert forall|k: int| 0 <= k < m.stack@.len() - 1 implies m.maze.open_between(
                    #[trigger] m.stack@[k],
                    m.stack@[k + 1],
                ) by {
                    if k + 1 < old(self).stack@.len() {
                        assert(m.stack@[k] == old(self).stack@[k]);
                        assert(m.stack@[k + 1] == old(self).stack@[k + 1]);
                        assert(old(self).maze.open_between(
                            old(self).stack@[k],
                            old(self).stack@[k + 1],
                        ));
                    } else if k + 1 == stack0.len() + 1 {
                        assert(m.stack@[k] == pos && m.stack@[k + 1] == t);
                    }
                }
                assert forall|p: Pos, q: Pos|
                    #![trigger m.visited.has(p), m.maze.open_between(p, q)]
                    m.visited.has(p) && !m.stack@.contains(p) && m.maze.open_between(p, q)
                    implies m.visited.has(q) by {
                    lemma_idx_bounds(g1, p);
                    lemma_idx_bounds(g1, q);
                    if g1.idx(p) == g1.idx(t) {
                        lemma_flat_idx_injective(w, h, p, t);
                        assert(m.stack@[m.stack@.len() - 1] == t);
                        assert(m.stack@.contains(p));
                    } else {
                        assert(vs1[g1.idx(p)]);
                        assert(old(self).visited.has(p));
                        assert forall|k2: int| 0 <= k2 < old(self).stack@.len() implies old(
                            self,
                        ).stack@[k2] != p by {
                            if k2 < stack0.len() {
                                assert(m.stack@[k2] == old(self).stack@[k2]);
                                assert(m.stack@.contains(m.stack@[k2]));
                            } else {
                                assert(old(self).stack@[k2] == pos);
                                assert(m.stack@[stack0.len() as int] == pos);
                                assert(m.stack@.contains(pos));
                            }
                        }
                        assert(!old(self).stack@.contains(p));
                        assert(old(self).visited.has(q));
                    }
                }
            }
            return false;
        }
        false
    }

    /// Drive the search to exhaustion.  The answer says exactly
    /// whether the start and end cells are joined through cleared
    /// walls; on a finished maze (a spanning tree) the answer is
    /// always success, and the stack then holds a path of at least one
    /// cell.
    pub fn run(&mut self) -> (r: bool)
        requires
            old(self).wf(),
        ensures
            final(self).wf(),
            final(self).maze == old(self).maze,
            final(self).start_pos == old(self).start_pos,
            final(self).end_pos == old(self).end_pos,
            r == connected(old(self).maze, old(self).start_pos, old(self).end_pos),
            is_spanning_tree(old(self).maze) ==> r,
            r ==> final(self).stack@.len() >= 1,
    {
        let mut found = false;
        while !found && self.stack.len() > 0
            invariant
                self.wf(),
                self.maze == old(self).maze,
                self.start_pos == old(self).start_pos,
                self.end_pos == old(self).end_pos,
                found ==> self.stack@.len() >= 1 && connected(
                    self.maze,
                    self.start_pos,
                    self.end_pos,
                ),
            decreases self.measure() + (if found { 0int } else { 1int }),
        {
            proof {
                lemma_count_bounds(self.visited.cells@, self.visited.cells@.len() as int);
            }
            found = self.solve();
            proof {
                lemma_count_bounds(self.visited.cells@, self.visited.cells@.len() as int);
            }
        }
        proof {
            if !found {
                // the search is exhausted: the visited region is
                // closed under open walls and excludes the end cell
                lemma_closed_region(self.maze, self.visited, self.start_pos, self.end_pos);
            }
            if is_spanning_tree(old(self).maze) {
                assert(connected(old(self).maze, old(self).start_pos, old(self).end_pos));
            }
        }
        found
    }
}

} // verus!
