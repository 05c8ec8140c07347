//! Kruskal: carve random walls between cells of different partitions.
//!
//! Every cell starts in its own partition.  A step picks a cell (from a
//! shuffled queue, then at random once the queue is spent) and one
//! random neighbour; when the two lie in different partitions the wall
//! between them is carved and the partitions merge by relabeling the
//! whole grid.  The partition count falls by exactly one per carve and
//! the maze is complete exactly when one partition is left.

use vstd::prelude::*;
use rand::rngs::StdRng;
use crate::cellset::{CellSet, count_true, lemma_count_all_true, lemma_count_at_least_two,
    lemma_count_bounds, lemma_count_update};
use crate::grid::{Direction, Grid, Pos, carved_just, lat_adj, lemma_flat_idx_injective,
    lemma_idx_bounds, lemma_neighbor_exists, lemma_no_open_walls, push_recent};
use crate::maze::Maze;
use crate::path::{connected, lemma_connected_adj, lemma_connected_monotone, lemma_connected_refl,
    lemma_connected_sym, lemma_connected_trans};
use crate::rng::{rand_below, shuffle_positions};

verus! {

/// How many recently touched cells are kept for display.
pub const LAST_POSSES_LEN: usize = 1100;

/// Per-cell record for display: the wall flags together with the
/// cell's partition label.
#[derive(Clone, Copy, PartialEq, Eq, Structural, Debug)]
pub struct KruskalNode {
    pub up: bool,
    pub left: bool,
    pub set: usize,
}

impl KruskalNode {
    pub fn new(set: usize) -> (n: KruskalNode)
        ensures
            n.up && n.left && n.set == set,
    {
        KruskalNode { up: true, left: true, set }
    }
}

/// Some cell carries label `v`.
pub open spec fn label_present(ls: Seq<usize>, v: int) -> bool {
    exists|i: int| 0 <= i < ls.len() && ls[i] == v
}

/// One flag per possible label value, set when the label is in use.
pub open spec fn labels_present(ls: Seq<usize>, n: int) -> Seq<bool> {
    Seq::new(n as nat, |v: int| label_present(ls, v))
}

/// The Kruskal engine.  `last_posses` is a display trail of the most
/// recently processed cells, newest first.
pub struct Kruskal {
    pub nodes: Grid,
    pub sets: Vec<usize>,
    pub visited: CellSet,
    pub unvisited: Vec<Pos>,
    pub num_sets: usize,
    pub last_posses: Vec<Pos>,
}

impl Kruskal {
    /// Cells open to each other carry the same label, and cells with
    /// the same label are connected: labels name the carved regions.
    pub open spec fn labels_ok(&self) -> bool {
        &&& self.sets@.len() == self.nodes.area()
        &&& forall|i: int| 0 <= i < self.sets@.len() ==> (#[trigger] self.sets@[i]) < self.nodes.area()
        &&& forall|p: Pos, q: Pos| #[trigger] self.nodes.open_between(p, q)
            ==> self.sets@[self.nodes.idx(p)] == self.sets@[self.nodes.idx(q)]
        &&& forall|p: Pos, q: Pos| self.nodes.in_bounds(p) && self.nodes.in_bounds(q)
            && (#[trigger] self.sets@[self.nodes.idx(p)]) == (#[trigger] self.sets@[self.nodes.idx(
            q,
        )]) ==> connected(self.nodes, p, q)
    }

    /// The partition count is the number of labels in use, and the
    /// cleared walls balance the merges performed so far.
    pub open spec fn count_ok(&self) -> bool {
        &&& self.num_sets == count_true(labels_present(self.sets@, self.nodes.area()))
        &&& self.num_sets >= 1
        &&& self.nodes.cleared_count() == self.nodes.area() - self.num_sets
    }

    /// The per-cell record for display.
    pub fn node_at(&self, p: Pos) -> (n: KruskalNode)
        requires
            self.wf(),
            self.nodes.in_bounds(p),
        ensures
            n.up == self.nodes.node(p).up,
            n.left == self.nodes.node(p).left,
            n.set == self.sets@[self.nodes.idx(p)],
    {
        proof {
            lemma_idx_bounds(self.nodes, p);
        }
        let w = self.nodes.node_at(p);
        let i: usize = p.y * self.nodes.width + p.x;
        KruskalNode { up: w.up, left: w.left, set: self.sets[i] }
    }

    /// Process one cell: examine a random neighbour and merge the two
    /// partitions when they differ, carving the wall between them.
    fn handle_position(&mut self, pos: Pos, rng: &mut StdRng)
        requires
            old(self).wf(),
            old(self).nodes.in_bounds(pos),
        ensures
            final(self).wf(),
            final(self).nodes.width == old(self).nodes.width,
            final(self).nodes.height == old(self).nodes.height,
            final(self).num_sets <= old(self).num_sets,
            old(self).num_sets - final(self).num_sets <= 1,
            final(self).nodes.cleared_count() - old(self).nodes.cleared_count() == old(
                self,
            ).num_sets - final(self).num_sets,
            final(self).unvisited@ == old(self).unvisited@,
            forall|p: Pos, q: Pos| #[trigger] old(self).nodes.open_between(p, q)
                ==> final(self).nodes.open_between(p, q),
            forall|p: Pos| old(self).visited.in_bounds(p) && #[trigger] old(self).visited.has(p)
                ==> final(self).visited.has(p),
            // with a neighbour available, one is examined: both cells
            // join the display set, and the partitions merge by a total
            // relabeling exactly when their labels differ
            old(self).nodes.area() >= 2 ==> final(self).visited.has(pos) && (exists|q: Pos|
                #[trigger] lat_adj(pos, q) && old(self).nodes.in_bounds(q)
                && final(self).visited.has(q) && ({
                ||| (old(self).sets@[old(self).nodes.idx(pos)]
                        == old(self).sets@[old(self).nodes.idx(q)]
                    && final(self).nodes == old(self).nodes
                    && final(self).sets@ == old(self).sets@
                    && final(self).num_sets == old(self).num_sets)
                ||| (old(self).sets@[old(self).nodes.idx(pos)]
                        != old(self).sets@[old(self).nodes.idx(q)]
                    && carved_just(old(self).nodes, final(self).nodes, pos, q)
                    && final(self).num_sets == old(self).num_sets - 1
                    && (forall|i: int| 0 <= i < old(self).sets@.len()
                        ==> #[trigger] final(self).sets@[i] == (if old(self).sets@[i]
                            == old(self).sets@[old(self).nodes.idx(q)] {
                            old(self).sets@[old(self).nodes.idx(pos)]
                        } else {
                            old(self).sets@[i]
                        })))
            })),
    {
        let ds = pos.get_neighbors(self.nodes.width, self.nodes.height);
        if ds.len() == 0 {
            proof {
                // only a single-cell grid leaves a cell with no
                // neighbour at all
                if self.nodes.area() >= 2 {
                    lemma_neighbor_exists(self.nodes, pos);
                    let q = choose|q: Pos| #[trigger] lat_adj(pos, q) && self.nodes.in_bounds(q);
                    assert(false);
                }
            }
            return;
        }
        let d = ds[rand_below(rng, ds.len())];
        let t = d.get_pos();
        proof {
            lemma_idx_bounds(self.nodes, pos);
            lemma_idx_bounds(self.nodes, t);
        }
        let i_pos: usize = pos.y * self.nodes.width + pos.x;
        let i_t: usize = t.y * self.nodes.width + t.x;
        let a = self.sets[i_pos];
        let b = self.sets[i_t];
        if a != b {
            let ghost g1 = self.nodes;
            let ghost ls1 = self.sets@;
            let ghost area = self.nodes.area();
            proof {
                // the wall is still present: open cells share a label
                if self.nodes.open_between(pos, t) {
                    assert(ls1[g1.idx(pos)] == ls1[g1.idx(t)]);
                }
            }
            self.nodes.carve(pos, d);
            let ghost gc = self.nodes;
            let ghost visited0 = self.visited;
            let ghost unvisited0 = self.unvisited@;
            let ghost num0 = self.num_sets;
            let ghost trail0 = self.last_posses@;
            // merge: relabel every cell of partition `b` into `a`
            let total: usize = self.nodes.width * self.nodes.height;
            let mut i: usize = 0;
            while i < total
                invariant
                    self.nodes == gc,
                    self.visited == visited0,
                    self.unvisited@ == unvisited0,
                    self.num_sets == num0,
                    self.last_posses@ == trail0,
                    self.sets@.len() == total,
                    ls1.len() == total,
                    i <= total,
                    a < total,
                    forall|j: int| 0 <= j < i ==> #[trigger] self.sets@[j] == (if ls1[j] == b {
                        a
                    } else {
                        ls1[j]
                    }),
                    forall|j: int| i <= j < total ==> #[trigger] self.sets@[j] == ls1[j],
                decreases total - i,
            {
                if self.sets[i] == b {
                    self.sets.set(i, a);
                }
                i = i + 1;
            }
            let ghost g2 = self.nodes;
            let ghost ls2 = self.sets@;
            proof {
                let w = g1.width as int;
                let h = g1.height as int;
                // labels stay in range
                assert forall|j: int| 0 <= j < ls2.len() implies (#[trigger] ls2[j]) < area by {
                    assert(ls1[j] < area);
                }
                // open cells still share a label
                assert forall|p: Pos, q: Pos| #[trigger] g2.open_between(p, q) implies ls2[g2.idx(
                    p,
                )] == ls2[g2.idx(q)] by {
                    assert(g2.in_bounds(p) && g2.in_bounds(q));
                    assert(g1.in_bounds(p) && g1.in_bounds(q));
                    lemma_idx_bounds(g1, p);
                    lemma_idx_bounds(g1, q);
                    if g1.open_between(p, q) {
                        assert(ls1[g1.idx(p)] == ls1[g1.idx(q)]);
                    } else {
                        assert((p == pos && q == t) || (p == t && q == pos));
                        assert(ls1[g1.idx(pos)] == a && ls1[g1.idx(t)] == b);
                    }
                }
                // cells sharing a label are connected
                assert forall|p: Pos, q: Pos| g2.in_bounds(p) && g2.in_bounds(q) && (
                #[trigger] ls2[g2.idx(p)]) == (#[trigger] ls2[g2.idx(q)]) implies connected(
                    g2,
                    p,
                    q,
                ) by {
                    lemma_idx_bounds(g1, p);
                    lemma_idx_bounds(g1, q);
                    let lp = ls1[g1.idx(p)];
                    let lq = ls1[g1.idx(q)];
                    if lp == lq {
                        assert(connected(g1, p, q));
                        lemma_connected_monotone(g1, g2, p, q);
                    } else if lp == b && lq == a {
                        assert(ls1[g1.idx(p)] == ls1[g1.idx(t)]);
                        assert(connected(g1, p, t));
                        assert(ls1[g1.idx(pos)] == ls1[g1.idx(q)]);
                        assert(connected(g1, pos, q));
                        lemma_connected_monotone(g1, g2, p, t);
                        lemma_connected_adj(g2, pos, t);
                        lemma_connected_sym(g2, pos, t);
                        lemma_connected_monotone(g1, g2, pos, q);
                        lemma_connected_trans(g2, p, t, pos);
                        lemma_connected_trans(g2, p, pos, q);
                    } else {
                        assert(lp == a && lq == b);
                        assert(ls1[g1.idx(p)] == ls1[g1.idx(pos)]);
                        assert(connected(g1, p, pos));
                        assert(ls1[g1.idx(t)] == ls1[g1.idx(q)]);
                        assert(connected(g1, t, q));
                        lemma_connected_monotone(g1, g2, p, pos);
                        lemma_connected_adj(g2, pos, t);
                        lemma_connected_monotone(g1, g2, t, q);
                        lemma_connected_trans(g2, p, pos, t);
                        lemma_connected_trans(g2, p, t, q);
                    }
                }
                // label `b` has gone out of use and nothing else changed
                let pr1 = labels_present(ls1, area);
                let pr2 = labels_present(ls2, area);
                assert forall|v: int| 0 <= v < area
                    implies pr2[v] == pr1.update(b as int, false)[v] by {
                    if v == b {
                        if label_present(ls2, v) {
                            let j = choose|j: int| 0 <= j < ls2.len() && ls2[j] == v;
                            assert(ls2[j] == if ls1[j] == b {
                                a
                            } else {
                                ls1[j]
                            });
                            assert(false);
                        }
                    } else if v == a {
                        assert(ls2[g1.idx(pos)] == a);
                        assert(label_present(ls2, v));
                        assert(ls1[g1.idx(pos)] == a);
                        assert(label_present(ls1, v));
                    } else {
                        if label_present(ls1, v) {
                            let j = choose|j: int| 0 <= j < ls1.len() && ls1[j] == v;
                            assert(ls2[j] == v);
                            assert(label_present(ls2, v));
                        }
                        if label_present(ls2, v) {
                            let j = choose|j: int| 0 <= j < ls2.len() && ls2[j] == v;
                            assert(ls1[j] == v);
                            assert(label_present(ls1, v));
                        }
                    }
                }
                assert(pr2 =~= pr1.update(b as int, false));
                assert(pr1[b as int]) by {
                    assert(ls1[g1.idx(t)] == b);
                }
                lemma_count_update(pr1, pr2, b as int, pr1.len() as int);
                // two labels were in use, so the count stays positive
                assert(pr1[a as int]) by {
                    assert(ls1[g1.idx(pos)] == a);
                }
                if a < b {
                    lemma_count_at_least_two(pr1, pr1.len() as int, a as int, b as int);
                } else {
                    lemma_count_at_least_two(pr1, pr1.len() as int, b as int, a as int);
                }
            }
            self.num_sets = self.num_sets - 1;
        }
        proof {
            lemma_idx_bounds(self.nodes, pos);
            lemma_idx_bounds(self.nodes, t);
        }
        let ghost va = self.visited;
        self.visited.insert(pos);
        let ghost vb = self.visited;
        self.visited.insert(t);
        proof {
            let w = self.nodes.width as int;
            let h = self.nodes.height as int;
            // both processed cells are now marked for display, and no
            // mark is ever lost
            assert(vb.has(pos));
            assert(self.visited.has(t));
            assert forall|c: Pos| va.in_bounds(c) && #[trigger] va.has(c)
                implies self.visited.has(c) by {
                crate::grid::lemma_flat_idx_bounds(w, h, c);
            }
            assert(self.visited.has(pos)) by {
                crate::grid::lemma_flat_idx_bounds(w, h, pos);
            }
            assert(lat_adj(pos, t));
        }
        // the two cells join the display trail, newest first
        push_recent(&mut self.last_posses, pos, LAST_POSSES_LEN);
        let ghost trail_mid = self.last_posses@;
        push_recent(&mut self.last_posses, t, LAST_POSSES_LEN);
        proof {
            assert forall|k: int| 0 <= k < trail_mid.len() implies self.nodes.in_bounds(
                #[trigger] trail_mid[k],
            ) by {
                if k >= 1 {
                    assert(trail_mid[k] == old(self).last_posses@[k - 1]);
                }
            }
            assert forall|k: int| 0 <= k < self.last_posses@.len() implies self.nodes.in_bounds(
                #[trigger] self.last_posses@[k],
            ) by {
                if k >= 1 {
                    assert(self.last_posses@[k] == trail_mid[k - 1]);
                }
            }
        }
    }
}

impl Maze for Kruskal {
    open spec fn wf(&self) -> bool {
        &&& self.visited.width == self.nodes.width
        &&& self.visited.height == self.nodes.height
        &&& self.visited.wf()
        &&& self.nodes.wf()
        &&& self.nodes.borders_ok()
        &&& self.labels_ok()
        &&& self.count_ok()
        &&& forall|k: int| 0 <= k < self.unvisited@.len() ==> self.nodes.in_bounds(
            #[trigger] self.unvisited@[k],
        )
        &&& forall|k: int| 0 <= k < self.last_posses@.len() ==> self.nodes.in_bounds(
            #[trigger] self.last_posses@[k],
        )
    }

    open spec fn grid_view(&self) -> Grid {
        self.nodes
    }

    fn grid(&self) -> (g: &Grid) {
        &self.nodes
    }

    open spec fn done(&self) -> bool {
        self.num_sets == 1
    }

    fn new(width: usize, height: usize, rng: &mut StdRng) -> (m: Self)
        ensures
            m.done() == (width * height == 1),
            m.num_sets == width * height,
            count_true(m.visited.cells@) == 0,
            m.unvisited@.len() == width * height,
            forall|p: Pos| p.x < width && p.y < height ==> m.unvisited@.contains(p),
            m.last_posses@.len() == 0,
    {
        let nodes = Grid::new(width, height);
        let visited = CellSet::new(width, height);
        let total: usize = width * height;
        let mut sets: Vec<usize> = Vec::new();
        let mut i: usize = 0;
        while i < total
            invariant
                i <= total,
                sets@.len() == i,
                forall|j: int| 0 <= j < i ==> #[trigger] sets@[j] == j,
            decreases total - i,
        {
            sets.push(i);
            i = i + 1;
        }
        // all cells, shuffled, as the processing queue
        let mut unvisited: Vec<Pos> = Vec::new();
        let mut x: usize = 0;
        let mut y: usize = 0;
        while y < height
            invariant
                y <= height,
                x == 0,
                width >= 1,
                unvisited@.len() == y * width,
                forall|k: int| 0 <= k < unvisited@.len() ==> (#[trigger] unvisited@[k]).x < width
                    && unvisited@[k].y < height,
                forall|p: Pos| p.x < width && p.y < y ==> unvisited@.contains(p),
            decreases height - y,
        {
            x = 0;
            while x < width
                invariant
                    x <= width,
                    y < height,
                    unvisited@.len() == y * width + x,
                    forall|k: int| 0 <= k < unvisited@.len() ==> (#[trigger] unvisited@[k]).x
                        < width && unvisited@[k].y < height,
                    forall|p: Pos| p.x < width && (p.y < y || (p.y == y && p.x < x))
                        ==> unvisited@.contains(p),
                decreases width - x,
            {
                let ghost before_push = unvisited@;
                unvisited.push(Pos::new(x, y));
                proof {
                    assert forall|p: Pos| p.x < width && (p.y < y || (p.y == y && p.x < x + 1))
                        implies unvisited@.contains(p) by {
                        if p.y == y && p.x == x {
                            assert(unvisited@[unvisited@.len() - 1] == p);
                        } else {
                            assert(before_push.contains(p));
                            let k = choose|k: int| 0 <= k < before_push.len() && before_push[k]
                                == p;
                            assert(unvisited@[k] == p);
                        }
                    }
                }
                x = x + 1;
            }
            proof {
                assert((y + 1) * width == y * width + width) by (nonlinear_arith);
            }
            x = 0;
            y = y + 1;
        }
        let ghost before = unvisited@;
        shuffle_positions(rng, &mut unvisited);
        proof {
            assert forall|k: int| 0 <= k < unvisited@.len() implies (#[trigger] unvisited@[k]).x
                < width && unvisited@[k].y < height by {
                assert(before.contains(unvisited@[k]));
                let j = choose|j: int| 0 <= j < before.len() && before[j] == unvisited@[k];
                assert(before[j].x < width && before[j].y < height);
            }
            // the shuffled queue still holds every cell of the grid
            before.to_multiset_ensures();
            unvisited@.to_multiset_ensures();
            assert forall|p: Pos| p.x < width && p.y < height implies unvisited@.contains(p) by {
                assert(before.contains(p));
                assert(before.to_multiset().count(p) > 0);
            }
            assert((height * width) == (width * height)) by (nonlinear_arith);
        }
        let m = Kruskal { nodes, sets, visited, unvisited, num_sets: total, last_posses: Vec::new() };
        proof {
            let area = m.nodes.area();
            lemma_no_open_walls(m.nodes);
            // every label is its own cell's index: all labels in use
            assert forall|p: Pos, q: Pos| m.nodes.in_bounds(p) && m.nodes.in_bounds(q) && (
            #[trigger] m.sets@[m.nodes.idx(p)]) == (#[trigger] m.sets@[m.nodes.idx(q)])
                implies connected(m.nodes, p, q) by {
                lemma_idx_bounds(m.nodes, p);
                lemma_idx_bounds(m.nodes, q);
                lemma_flat_idx_injective(m.nodes.width as int, m.nodes.height as int, p, q);
                lemma_connected_refl(m.nodes, p);
            }
            let pr = labels_present(m.sets@, area);
            assert forall|v: int| 0 <= v < area implies pr[v] by {
                assert(m.sets@[v] == v);
            }
            lemma_count_all_true(pr, pr.len() as int);
            assert(m.num_sets >= 1) by (nonlinear_arith)
                requires
                    1 <= width,
                    1 <= height,
                    m.num_sets == width * height,
            ;
            assert(m.wf());
        }
        m
    }

    fn complete(&self) -> (r: bool) {
        let r = self.num_sets == 1;
        proof {
            if r {
                let area = self.nodes.area();
                let pr = labels_present(self.sets@, area);
                assert forall|a: Pos, b: Pos| self.nodes.in_bounds(a) && self.nodes.in_bounds(b)
                    implies #[trigger] connected(self.nodes, a, b) by {
                    lemma_idx_bounds(self.nodes, a);
                    lemma_idx_bounds(self.nodes, b);
                    let la = self.sets@[self.nodes.idx(a)];
                    let lb = self.sets@[self.nodes.idx(b)];
                    if la != lb {
                        assert(pr[la as int]);
                        assert(pr[lb as int]);
                        if la < lb {
                            lemma_count_at_least_two(pr, pr.len() as int, la as int, lb as int);
                        } else {
                            lemma_count_at_least_two(pr, pr.len() as int, lb as int, la as int);
                        }
                        assert(false);
                    }
                }
            }
        }
        r
    }

    fn reset(&mut self, rng: &mut StdRng)
        ensures
            final(self).done() == (old(self).grid_view().area() == 1),
            final(self).num_sets == old(self).grid_view().area(),
            count_true(final(self).visited.cells@) == 0,
            final(self).unvisited@.len() == old(self).grid_view().area(),
            forall|p: Pos| old(self).grid_view().in_bounds(p) ==> final(self).unvisited@.contains(
                p,
            ),
    {
        let w = self.nodes.width;
        let h = self.nodes.height;
        *self = Self::new(w, h, rng);
    }

    fn generate(&mut self, rng: &mut StdRng)
        ensures
            final(self).num_sets <= old(self).num_sets,
            old(self).num_sets - final(self).num_sets <= 1,
            final(self).num_sets >= 1,
            final(self).nodes.cleared_count() - old(self).nodes.cleared_count() == old(
                self,
            ).num_sets - final(self).num_sets,
            forall|p: Pos, q: Pos| #[trigger] old(self).nodes.open_between(p, q)
                ==> final(self).nodes.open_between(p, q),
            forall|p: Pos| old(self).visited.in_bounds(p) && #[trigger] old(self).visited.has(p)
                ==> final(self).visited.has(p),
            // every step before completion consumes the pending queue
            // and marks the cell it examined
            !old(self).done() && old(self).unvisited@.len() > 0 ==> final(self).unvisited@
                == old(self).unvisited@.subrange(0, old(self).unvisited@.len() - 1)
                && final(self).visited.has(old(self).unvisited@[old(self).unvisited@.len() - 1]),
            !old(self).done() && old(self).unvisited@.len() == 0 ==> final(self).unvisited@.len()
                == 0 && (exists|c: Pos| old(self).nodes.in_bounds(c)
                && #[trigger] final(self).visited.has(c) && (exists|q: Pos| lat_adj(c, q)
                && old(self).nodes.in_bounds(q) && final(self).visited.has(q))),
    {
        if self.num_sets == 1 {
            return;
        }
        proof {
            // more than one partition needs more than one cell
            let pr = labels_present(self.sets@, self.nodes.area());
            lemma_count_bounds(pr, pr.len() as int);
            assert(self.nodes.area() >= 2);
        }
        let popped = self.unvisited.pop();
        let pos: Pos = match popped {
            Some(p) => p,
            None => {
                // the queue is spent: fall back to a random cell so
                // stepping stays well-defined until completion
                let x = rand_below(rng, self.nodes.width);
                let y = rand_below(rng, self.nodes.height);
                Pos::new(x, y)
            },
        };
        self.handle_position(pos, rng);
        // the trail ends with the maze
        if self.num_sets == 1 {
            self.last_posses = Vec::new();
        }
        proof {
            if old(self).num_sets != 1 && old(self).unvisited@.len() == 0 {
                // the random fallback cell and one of its neighbours
                // were examined and marked
                assert(old(self).nodes.in_bounds(pos));
                assert(self.visited.has(pos));
                let q = choose|q: Pos| #[trigger] lat_adj(pos, q) && self.nodes.in_bounds(q)
                    && self.visited.has(q);
                assert(lat_adj(pos, q) && old(self).nodes.in_bounds(q) && self.visited.has(q));
            }
        }
    }
}

} // verus!
