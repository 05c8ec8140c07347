//! Wilson: loop-erased random walks.
//!
//! One cell is committed at reset.  A walk starts from an uncommitted
//! cell and moves uniformly at random; whenever it revisits one of its
//! own cells the loop it just closed is erased, so the walk never holds
//! a repeated cell.  When the walk reaches a committed cell the whole
//! loop-free walk is carved into the maze, one leaf at a time, from the
//! committed end backwards.

use vstd::prelude::*;
use rand::rngs::StdRng;
use crate::cellset::{CellSet, count_true, lemma_count_bounds};
use crate::grid::{Direction, Grid, Pos, dir_ok, flat_idx, lat_adj, lemma_flat_idx_injective,
    lemma_idx_bounds, lemma_neighbor_exists};
use crate::maze::Maze;
use crate::path::lemma_open_sym;
use crate::rng::rand_below;
use crate::tree::{lemma_tree_complete, lemma_tree_extend, lemma_tree_start,
    tree_inv};

verus! {

/// The direction that moves from `from` to its lattice neighbour `to`.
fn dir_to(from: Pos, to: Pos) -> (d: Direction)
    requires
        lat_adj(from, to),
    ensures
        dir_ok(from, d),
        d.target() == to,
{
    if from.x == to.x {
        if to.y < from.y {
            Direction::Up(to)
        } else {
            Direction::Down(to)
        }
    } else {
        if to.x < from.x {
            Direction::Left(to)
        } else {
            Direction::Right(to)
        }
    }
}

/// The wall between `a` and `b` is one of the walk's steps from index
/// `lo` on, the walk's last step ending at `t`.
pub open spec fn walk_wall_from(walk: Seq<Pos>, t: Pos, lo: int, a: Pos, b: Pos) -> bool {
    exists|k: int|
        #![trigger walk[k]]
        lo <= k < walk.len() && ({
            let next = if k == walk.len() - 1 {
                t
            } else {
                walk[k + 1]
            };
            (a == walk[k] && b == next) || (a == next && b == walk[k])
        })
}

/// The wall between `a` and `b` is one of the walk's steps, the last
/// one ending at `t`.
pub open spec fn walk_wall(walk: Seq<Pos>, t: Pos, a: Pos, b: Pos) -> bool {
    walk_wall_from(walk, t, 0, a, b)
}

/// `i` is the flat index of one of the walk's cells from `lo` on.
pub open spec fn walk_cell_from(width: int, walk: Seq<Pos>, lo: int, i: int) -> bool {
    exists|k: int| lo <= k < walk.len() && flat_idx(width, #[trigger] walk[k]) == i
}

/// `i` is the flat index of one of the walk's cells.
pub open spec fn walk_cell(width: int, walk: Seq<Pos>, i: int) -> bool {
    walk_cell_from(width, walk, 0, i)
}

/// The Wilson engine.
pub struct Wilson {
    pub nodes: Grid,
    pub visited: CellSet,
    pub walk: Vec<Pos>,
}

impl Wilson {
    /// The candidate walk stays on the grid, outside the committed
    /// region, moves one cell at a time, and holds no repeated cell:
    /// loops are erased the moment they close.
    pub open spec fn walk_ok(&self) -> bool {
        &&& forall|k: int| 0 <= k < self.walk@.len() ==> self.nodes.in_bounds(
            #[trigger] self.walk@[k],
        ) && !self.visited.has(self.walk@[k])
        &&& forall|k: int| 0 <= k < self.walk@.len() - 1 ==> lat_adj(
            #[trigger] self.walk@[k],
            self.walk@[k + 1],
        )
        &&& forall|k1: int, k2: int| 0 <= k1 < k2 < self.walk@.len() ==> self.walk@[k1]
            != self.walk@[k2]
    }
}

impl Maze for Wilson {
    open spec fn wf(&self) -> bool {
        &&& self.visited.width == self.nodes.width
        &&& self.visited.height == self.nodes.height
        &&& self.visited.wf()
        &&& tree_inv(self.nodes, self.visited.cells@)
        &&& self.walk_ok()
    }

    open spec fn grid_view(&self) -> Grid {
        self.nodes
    }

    fn grid(&self) -> (g: &Grid) {
        &self.nodes
    }

    open spec fn done(&self) -> bool {
        count_true(self.visited.cells@) == self.nodes.area()
    }

    fn new(width: usize, height: usize, rng: &mut StdRng) -> (m: Self)
        ensures
            m.done() == (width * height == 1),
            count_true(m.visited.cells@) == 1,
            m.walk@.len() == 0,
    {
        let nodes = Grid::new(width, height);
        let mut visited = CellSet::new(width, height);
        let sx = rand_below(rng, width);
        let sy = rand_below(rng, height);
        let start = Pos::new(sx, sy);
        proof {
            lemma_idx_bounds(nodes, start);
        }
        visited.insert(start);
        proof {
            assert forall|i: int| 0 <= i < visited.cells@.len() implies visited.cells@[i] == (i
                == nodes.idx(start)) by {}
            lemma_tree_start(nodes, visited.cells@, start);
        }
        Wilson { nodes, visited, walk: Vec::new() }
    }

    fn complete(&self) -> (r: bool) {
        let r = self.visited.is_full();
        proof {
            if r {
                lemma_tree_complete(self.nodes, self.visited.cells@);
            }
        }
        r
    }

    fn reset(&mut self, rng: &mut StdRng)
        ensures
            final(self).done() == (old(self).grid_view().area() == 1),
            count_true(final(self).visited.cells@) == 1,
            final(self).walk@.len() == 0,
    {
        let w = self.nodes.width;
        let h = self.nodes.height;
        *self = Self::new(w, h, rng);
    }

    fn generate(&mut self, rng: &mut StdRng)
        ensures
            count_true(final(self).visited.cells@) >= count_true(old(self).visited.cells@),
            // a walk in progress never holds a repeated cell
            final(self).walk_ok(),
            forall|p: Pos, q: Pos| #[trigger] old(self).nodes.open_between(p, q)
                ==> final(self).nodes.open_between(p, q),
            forall|p: Pos| old(self).visited.in_bounds(p) && #[trigger] old(self).visited.has(p)
                ==> final(self).visited.has(p),
            // no wall moves while the walk is alive
            final(self).walk@.len() > 0 ==> final(self).nodes == old(self).nodes,
            // every step before completion starts, lengthens, erases
            // from, or commits the walk: its length always changes
            !old(self).done() ==> final(self).walk@.len() != old(self).walk@.len(),
            // a committing step carves the whole walk into the maze
            !old(self).done() && old(self).walk@.len() > 0 && final(self).walk@.len() == 0
                ==> count_true(final(self).visited.cells@) == count_true(old(self).visited.cells@)
                    + old(self).walk@.len(),
            // a fresh walk starts at some uncommitted cell
            !old(self).done() && old(self).walk@.len() == 0 ==> final(self).walk@.len() == 1
                && final(self).nodes == old(self).nodes
                && final(self).visited == old(self).visited
                && old(self).nodes.in_bounds(final(self).walk@[0])
                && !old(self).visited.has(final(self).walk@[0]),
            // otherwise the step's whole effect is fixed by the random
            // move from the walk head: commit the walk, erase a loop,
            // or extend
            !old(self).done() && old(self).walk@.len() > 0 ==> (exists|t: Pos|
                #[trigger] lat_adj(old(self).walk@[old(self).walk@.len() - 1], t)
                && old(self).nodes.in_bounds(t) && ({
                ||| (old(self).visited.has(t) && final(self).walk@.len() == 0
                    // exactly the walk's cells join the committed set,
                    // and exactly its walls open
                    && (forall|i: int|
                        #![trigger final(self).visited.cells@[i]]
                        #![trigger old(self).visited.cells@[i]]
                        0 <= i < final(self).visited.cells@.len()
                            ==> final(self).visited.cells@[i] == (old(self).visited.cells@[i]
                            || walk_cell(old(self).nodes.width as int, old(self).walk@, i)))
                    && (forall|a: Pos, b: Pos|
                        #![trigger final(self).nodes.open_between(a, b)]
                        #![trigger old(self).nodes.open_between(a, b)]
                        final(self).nodes.open_between(a, b) == (old(self).nodes.open_between(a, b)
                            || walk_wall(old(self).walk@, t, a, b))))
                ||| (!old(self).visited.has(t) && final(self).nodes == old(self).nodes
                    && final(self).visited == old(self).visited
                    // the loop just closed is erased back to the first
                    // occurrence of the revisited cell
                    && (exists|j: int|
                        #![trigger old(self).walk@[j]]
                        0 <= j < old(self).walk@.len() && old(self).walk@[j] == t && (forall|k: int|
                            0 <= k < j ==> old(self).walk@[k] != t) && final(self).walk@ == old(
                            self,
                        ).walk@.subrange(0, j + 1)))
                ||| (!old(self).visited.has(t) && final(self).nodes == old(self).nodes
                    && final(self).visited == old(self).visited
                    && (forall|k: int| 0 <= k < old(self).walk@.len() ==> old(self).walk@[k] != t)
                    && final(self).walk@ == old(self).walk@.push(t))
            })),
    {
        if self.visited.is_full() {
            return;
        }
        if self.walk.len() == 0 {
            // begin a new walk at some uncommitted cell
            proof {
                lemma_count_bounds(self.visited.cells@, self.visited.cells@.len() as int);
            }
            let start_opt = self.visited.find_absent();
            proof {
                // an unfinished maze always has one
                if start_opt.is_none() {
                    assert(false);
                }
            }
            if let Some(start) = start_opt {
                self.walk.push(start);
                proof {
                    assert(self.walk@[0] == start);
                }
            }
            return;
        }
        let head = self.walk[self.walk.len() - 1];
        proof {
            lemma_count_bounds(self.visited.cells@, self.visited.cells@.len() as int);
            lemma_neighbor_exists(self.nodes, head);
            let q = choose|q: Pos| #[trigger] lat_adj(head, q) && self.nodes.in_bounds(q);
        }
        let ds = head.get_neighbors(self.nodes.width, self.nodes.height);
        let d = ds[rand_below(rng, ds.len())];
        let t = d.get_pos();
        if self.visited.contains(t) {
            // the walk has reached the maze: carve it in, from the
            // committed end backwards
            let ghost walk0 = self.walk@;
            let ghost w = self.nodes.width as int;
            let ghost h = self.nodes.height as int;
            let ghost width0 = self.nodes.width;
            let ghost height0 = self.nodes.height;
            let mut anchor = t;
            let mut i = self.walk.len();
            while i > 0
                invariant
                    self.visited.width == width0,
                    self.visited.height == height0,
                    self.nodes.width == width0,
                    self.nodes.height == height0,
                    old(self).visited.width == width0,
                    old(self).visited.height == height0,
                    w == width0 as int,
                    h == height0 as int,
                    self.visited.wf(),
                    tree_inv(self.nodes, self.visited.cells@),
                    self.walk@ == walk0,
                    i <= walk0.len(),
                    self.nodes.in_bounds(anchor),
                    self.visited.has(anchor),
                    anchor == if i == walk0.len() {
                        t
                    } else {
                        walk0[i as int]
                    },
                    forall|k: int| 0 <= k < walk0.len() ==> self.nodes.in_bounds(
                        #[trigger] walk0[k],
                    ),
                    forall|k: int| 0 <= k < i ==> !self.visited.has(#[trigger] walk0[k]),
                    forall|k: int| 0 <= k < walk0.len() - 1 ==> lat_adj(
                        #[trigger] walk0[k],
                        walk0[k + 1],
                    ),
                    forall|k1: int, k2: int| 0 <= k1 < k2 < walk0.len() ==> walk0[k1] != walk0[k2],
                    i == walk0.len() ==> lat_adj(walk0[walk0.len() - 1], t),
                    count_true(self.visited.cells@) == count_true(old(self).visited.cells@) + (
                    walk0.len() - i),
                    forall|p2: Pos, q2: Pos| #[trigger] old(self).nodes.open_between(p2, q2)
                        ==> self.nodes.open_between(p2, q2),
                    forall|p2: Pos| old(self).visited.in_bounds(p2)
                        && #[trigger] old(self).visited.has(p2) ==> self.visited.has(p2),
                    self.visited.cells@.len() == old(self).visited.cells@.len(),
                    forall|a2: Pos, b2: Pos|
                        #![trigger self.nodes.open_between(a2, b2)]
                        #![trigger old(self).nodes.open_between(a2, b2)]
                        self.nodes.open_between(a2, b2) == (old(self).nodes.open_between(a2, b2)
                            || walk_wall_from(walk0, t, i as int, a2, b2)),
                    forall|jj: int|
                        #![trigger self.visited.cells@[jj]]
                        #![trigger old(self).visited.cells@[jj]]
                        0 <= jj < self.visited.cells@.len() ==> self.visited.cells@[jj]
                            == (old(self).visited.cells@[jj] || walk_cell_from(
                            w,
                            walk0,
                            i as int,
                            jj,
                        )),
                decreases i,
            {
                i = i - 1;
                let c = self.walk[i];
                proof {
                    assert(lat_adj(c, anchor));
                }
                let dd = dir_to(c, anchor);
                proof {
                    lemma_idx_bounds(self.nodes, c);
                    lemma_idx_bounds(self.nodes, anchor);
                    lemma_open_sym(self.nodes, c, anchor);
                    if self.nodes.open_between(c, anchor) {
                        assert(self.visited.cells@[self.nodes.idx(c)]);
                    }
                }
                let ghost g1 = self.nodes;
                let ghost vs1 = self.visited.cells@;
                self.nodes.carve(c, dd);
                self.visited.insert(c);
                proof {
                    assert forall|p2: Pos, q2: Pos| #[trigger] g1.open_between(p2, q2)
                        implies self.nodes.open_between(p2, q2) by {}
                    lemma_open_sym(self.nodes, c, anchor);
                    assert forall|p2: Pos, q2: Pos| #[trigger] self.nodes.open_between(p2, q2)
                        implies g1.open_between(p2, q2) || (p2 == anchor && q2 == c) || (p2 == c
                        && q2 == anchor) by {}
                    lemma_tree_extend(g1, self.nodes, vs1, anchor, c);
                    assert(self.visited.cells@ == vs1.update(g1.idx(c), true));
                    // the cells still ahead of the commit stay
                    // uncommitted: they differ from `c`
                    assert forall|k: int| 0 <= k < i implies !self.visited.has(
                        #[trigger] walk0[k],
                    ) by {
                        lemma_idx_bounds(g1, walk0[k]);
                        if g1.idx(walk0[k]) == g1.idx(c) {
                            lemma_flat_idx_injective(w, h, walk0[k], c);
                        }
                    }
                    assert(self.visited.has(c));
                    assert(count_true(self.visited.cells@) == count_true(vs1) + 1);
                    // walls only ever open, and committed cells stay
                    assert forall|p2: Pos, q2: Pos| #[trigger] old(self).nodes.open_between(p2, q2)
                        implies self.nodes.open_between(p2, q2) by {
                        assert(g1.open_between(p2, q2));
                    }
                    assert forall|p2: Pos| old(self).visited.in_bounds(p2)
                        && #[trigger] old(self).visited.has(p2) implies self.visited.has(p2) by {
                        lemma_idx_bounds(g1, p2);
                        assert(vs1[g1.idx(p2)]);
                    }
                    // the wall just carved and the cell just committed
                    // are the walk's step at the new index
                    let inew = i as int;
                    let nxt: Pos = if inew == walk0.len() - 1 {
                        t
                    } else {
                        walk0[inew + 1]
                    };
                    assert(nxt == anchor);
                    assert(walk0[inew] == c);
                    assert forall|a2: Pos, b2: Pos|
                        #![trigger self.nodes.open_between(a2, b2)]
                        #![trigger old(self).nodes.open_between(a2, b2)]
                        self.nodes.open_between(a2, b2) == (old(self).nodes.open_between(a2, b2)
                            || walk_wall_from(walk0, t, inew, a2, b2)) by {
                        if self.nodes.open_between(a2, b2) {
                            if g1.open_between(a2, b2) {
                                if !old(self).nodes.open_between(a2, b2) {
                                    assert(walk_wall_from(walk0, t, inew + 1, a2, b2));
                                    let k = choose|k: int|
                                        #![trigger walk0[k]]
                                        inew + 1 <= k < walk0.len() && ({
                                            let next = if k == walk0.len() - 1 {
                                                t
                                            } else {
                                                walk0[k + 1]
                                            };
                                            (a2 == walk0[k] && b2 == next) || (a2 == next && b2
                                                == walk0[k])
                                        });
                                    assert(walk_wall_from(walk0, t, inew, a2, b2));
                                }
                            } else {
                                assert((a2 == c && b2 == anchor) || (a2 == anchor && b2 == c));
                                assert(inew <= inew < walk0.len() && ((a2 == walk0[inew] && b2
                                    == nxt) || (a2 == nxt && b2 == walk0[inew])));
                                assert(walk_wall_from(walk0, t, inew, a2, b2));
                            }
                        }
                        if old(self).nodes.open_between(a2, b2) {
                            assert(g1.open_between(a2, b2));
                            assert(self.nodes.open_between(a2, b2));
                        }
                        if walk_wall_from(walk0, t, inew, a2, b2) {
                            let k = choose|k: int|
                                #![trigger walk0[k]]
                                inew <= k < walk0.len() && ({
                                    let next = if k == walk0.len() - 1 {
                                        t
                                    } else {
                                        walk0[k + 1]
                                    };
                                    (a2 == walk0[k] && b2 == next) || (a2 == next && b2
                                        == walk0[k])
                                });
                            if k >= inew + 1 {
                                assert(walk_wall_from(walk0, t, inew + 1, a2, b2));
                                assert(g1.open_between(a2, b2));
                            } else {
                                assert(k == inew);
                                assert(self.nodes.open_between(c, anchor));
                                assert(self.nodes.open_between(anchor, c));
                            }
                            assert(self.nodes.open_between(a2, b2));
                        }
                    }
                    assert forall|jj: int|
                        #![trigger self.visited.cells@[jj]]
                        #![trigger old(self).visited.cells@[jj]]
                        0 <= jj < self.visited.cells@.len() implies self.visited.cells@[jj] == (old(
                        self,
                    ).visited.cells@[jj] || walk_cell_from(w, walk0, inew, jj)) by {
                        lemma_idx_bounds(g1, c);
                        if self.visited.cells@[jj] {
                            if vs1[jj] {
                                if !old(self).visited.cells@[jj] {
                                    assert(walk_cell_from(w, walk0, inew + 1, jj));
                                    let k = choose|k: int|
                                        inew + 1 <= k < walk0.len() && flat_idx(
                                            w,
                                            #[trigger] walk0[k],
                                        ) == jj;
                                    assert(walk_cell_from(w, walk0, inew, jj));
                                }
                            } else {
                                assert(jj == g1.idx(c));
                                assert(flat_idx(w, walk0[inew]) == jj);
                                assert(walk_cell_from(w, walk0, inew, jj));
                            }
                        }
                        if old(self).visited.cells@[jj] {
                            assert(vs1[jj]);
                        }
                        if walk_cell_from(w, walk0, inew, jj) {
                            let k = choose|k: int|
                                inew <= k < walk0.len() && flat_idx(w, #[trigger] walk0[k]) == jj;
                            if k >= inew + 1 {
                                assert(walk_cell_from(w, walk0, inew + 1, jj));
                                assert(vs1[jj]);
                            } else {
                                assert(jj == flat_idx(w, c));
                            }
                            assert(self.visited.cells@[jj]);
                        }
                    }
                }
                anchor = c;
            }
            proof {
                // the whole walk is in: hand the full characterization
                // to the caller
                assert(lat_adj(walk0[walk0.len() - 1], t));
                assert(old(self).visited.has(t));
            }
            self.walk.clear();
        } else {
            // look for `t` on the walk itself
            let n = self.walk.len();
            let mut j: usize = 0;
            while j < n && self.walk[j] != t
                invariant
                    n == self.walk@.len(),
                    j <= n,
                    forall|k: int| 0 <= k < j ==> self.walk@[k] != t,
                decreases n - j,
            {
                j = j + 1;
            }
            if j < n {
                // the walk closed a loop: erase it back to the first
                // occurrence of the revisited cell, which is strictly
                // before the head the move started from
                proof {
                    assert(lat_adj(head, t));
                    assert(t != head);
                    assert(self.walk@[j as int] == t);
                    assert(self.walk@[self.walk@.len() - 1] == head);
                    assert(j != self.walk@.len() - 1);
                }
                self.walk.truncate(j + 1);
                proof {
                    assert(self.walk@ =~= old(self).walk@.subrange(0, j as int + 1));
                    assert(lat_adj(old(self).walk@[old(self).walk@.len() - 1], t));
                    assert(old(self).walk@[j as int] == t);
                }
            } else {
                // fresh ground: extend the walk
                self.walk.push(t);
                proof {
                    assert(self.walk@ =~= old(self).walk@.push(t));
                    assert(lat_adj(old(self).walk@[old(self).walk@.len() - 1], t));
                }
            }
        }
    }
}

} // verus!
