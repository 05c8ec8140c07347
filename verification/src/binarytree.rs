//! Binary Tree: a row-major scan that carves one wall per cell.
//!
//! The cursor visits each cell once, in row-major order.  An interior
//! cell flips a fair coin and carves up or left, a top-row cell carves
//! left, a first-column cell carves up, and the origin carves nothing.
//! Every carve joins the current cell to an already-processed one, so
//! the processed region is a growing tree.

use vstd::prelude::*;
use rand::rngs::StdRng;
use crate::cellset::{count_true, lemma_count_all_true};
use crate::grid::{Direction, Grid, Pos, carved_just, flat_idx, lemma_idx_bounds};
use crate::maze::Maze;
use crate::rng::rand_bool;
use crate::tree::{lemma_tree_complete, lemma_tree_extend, lemma_tree_start,
    tree_inv};

verus! {

/// The binary-tree engine.
pub struct BinaryTree {
    pub nodes: Grid,
    pub current_pos: Pos,
}

impl BinaryTree {
    /// The flat index of the cursor; `area` once the scan is past the
    /// last row.
    pub open spec fn cursor_index(&self) -> int {
        flat_idx(self.nodes.width as int, self.current_pos)
    }

    /// The cells the cursor has already processed.
    pub open spec fn processed(&self) -> Seq<bool> {
        Seq::new(self.nodes.area() as nat, |i: int| i < self.cursor_index())
    }

    /// The cursor is on the grid, or one row past it.
    pub open spec fn cursor_ok(&self) -> bool {
        ||| (self.current_pos.y < self.nodes.height && self.current_pos.x < self.nodes.width)
        ||| (self.current_pos.y == self.nodes.height && self.current_pos.x == 0)
    }
}

impl Maze for BinaryTree {
    open spec fn wf(&self) -> bool {
        &&& self.nodes.wf()
        &&& self.cursor_ok()
        &&& if self.cursor_index() == 0 {
            self.nodes.cleared_count() == 0 && self.nodes.borders_ok()
        } else {
            tree_inv(self.nodes, self.processed())
        }
    }

    open spec fn grid_view(&self) -> Grid {
        self.nodes
    }

    fn grid(&self) -> (g: &Grid) {
        &self.nodes
    }

    open spec fn done(&self) -> bool {
        self.current_pos.y == self.nodes.height
    }

    fn new(width: usize, height: usize, _rng: &mut StdRng) -> (m: Self)
        ensures
            m.done() == (width * height == 1),
            m.current_pos == (if width * height == 1 {
                Pos { x: 0, y: 1 }
            } else {
                Pos { x: 0, y: 0 }
            }),
    {
        let nodes = Grid::new(width, height);
        // the lone cell of a single-cell grid is the origin, which
        // carves nothing: that scan is already past its last row
        let start_pos: Pos = if width == 1 && height == 1 {
            Pos::new(0, 1)
        } else {
            Pos::new(0, 0)
        };
        let m = BinaryTree { nodes, current_pos: start_pos };
        proof {
            assert((width * height == 1) == (width == 1 && height == 1)) by (nonlinear_arith)
                requires
                    1 <= width,
                    1 <= height,
            ;
            if width == 1 && height == 1 {
                assert(m.cursor_index() == 1);
                let vs = Seq::new(m.nodes.area() as nat, |i: int| i < 1);
                let origin = Pos { x: 0, y: 0 };
                assert(m.nodes.idx(origin) == 0);
                assert forall|i: int| 0 <= i < vs.len() implies vs[i] == (i == m.nodes.idx(
                    origin,
                )) by {}
                lemma_tree_start(m.nodes, vs, origin);
                assert(vs =~= m.processed());
            }
        }
        m
    }

    fn complete(&self) -> (r: bool) {
        let r = self.current_pos.y == self.nodes.height;
        proof {
            if r {
                let w = self.nodes.width as int;
                let h = self.nodes.height as int;
                assert(self.cursor_index() == h * w);
                assert(h * w == w * h) by (nonlinear_arith);
                assert(self.cursor_index() == self.nodes.area());
                assert(self.cursor_index() > 0) by (nonlinear_arith)
                    requires
                        1 <= w,
                        1 <= h,
                        self.cursor_index() == w * h,
                ;
                lemma_count_all_true(self.processed(), self.processed().len() as int);
                lemma_tree_complete(self.nodes, self.processed());
            }
        }
        r
    }

    fn reset(&mut self, rng: &mut StdRng)
        ensures
            final(self).done() == (old(self).grid_view().area() == 1),
            final(self).current_pos == (if old(self).grid_view().area() == 1 {
                Pos { x: 0, y: 1 }
            } else {
                Pos { x: 0, y: 0 }
            }),
    {
        let w = self.nodes.width;
        let h = self.nodes.height;
        *self = Self::new(w, h, rng);
    }

    fn generate(&mut self, rng: &mut StdRng)
        ensures
            old(self).done() || final(self).cursor_index() == old(self).cursor_index() + 1,
            forall|p: Pos, q: Pos| #[trigger] old(self).nodes.open_between(p, q)
                ==> final(self).nodes.open_between(p, q),
            // one step carves exactly the wall its position class
            // dictates (up, left, a coin between them, or none at the
            // origin), then advances the scan one cell row-major
            !old(self).done() ==> ({
                let cur = old(self).current_pos;
                &&& final(self).current_pos == (if cur.x + 1 < old(self).nodes.width {
                    Pos { x: (cur.x + 1) as usize, y: cur.y }
                } else {
                    Pos { x: 0, y: (cur.y + 1) as usize }
                })
                &&& (cur.x == 0 && cur.y == 0 ==> final(self).nodes == old(self).nodes)
                &&& (cur.x > 0 && cur.y == 0 ==> carved_just(
                    old(self).nodes,
                    final(self).nodes,
                    cur,
                    (Pos { x: (cur.x - 1) as usize, y: cur.y }),
                ))
                &&& (cur.x == 0 && cur.y > 0 ==> carved_just(
                    old(self).nodes,
                    final(self).nodes,
                    cur,
                    (Pos { x: cur.x, y: (cur.y - 1) as usize }),
                ))
                &&& (cur.x > 0 && cur.y > 0 ==> carved_just(
                    old(self).nodes,
                    final(self).nodes,
                    cur,
                    (Pos { x: (cur.x - 1) as usize, y: cur.y }),
                ) || carved_just(
                    old(self).nodes,
                    final(self).nodes,
                    cur,
                    (Pos { x: cur.x, y: (cur.y - 1) as usize }),
                ))
            }),
    {
        if self.current_pos.y == self.nodes.height {
            return;
        }
        let cur = self.current_pos;
        let ghost k = self.cursor_index();
        let ghost w = self.nodes.width as int;
        let ghost h = self.nodes.height as int;
        proof {
            lemma_idx_bounds(self.nodes, cur);
        }
        if cur.x == 0 && cur.y == 0 {
            // the origin carves nothing; it becomes the root of the tree
            proof {
                assert(cur.y * (self.nodes.width as int) + cur.x == 0) by (nonlinear_arith)
                    requires
                        cur.x == 0,
                        cur.y == 0,
                ;
                assert(self.nodes.idx(cur) == 0);
                assert(self.cursor_index() == 0);
                assert(self.nodes.cleared_count() == 0 && self.nodes.borders_ok());
                let vs = Seq::new(self.nodes.area() as nat, |i: int| i < 1);
                assert forall|i: int| 0 <= i < vs.len() implies vs[i] == (i == self.nodes.idx(
                    cur,
                )) by {}
                lemma_tree_start(self.nodes, vs, cur);
            }
        } else {
            // an interior cell flips a coin; edge cells have one choice
            let carve_up: bool = if cur.x > 0 && cur.y > 0 {
                rand_bool(rng)
            } else {
                cur.x == 0
            };
            let d: Direction = if carve_up {
                Direction::Up(Pos::new(cur.x, cur.y - 1))
            } else {
                Direction::Left(Pos::new(cur.x - 1, cur.y))
            };
            let t = d.get_pos();
            proof {
                lemma_idx_bounds(self.nodes, t);
                if carve_up {
                    assert((cur.y - 1) * w == cur.y * w - w) by (nonlinear_arith);
                    assert(self.nodes.idx(t) == k - w);
                } else {
                    assert(self.nodes.idx(t) == k - 1);
                }
                assert(0 <= self.nodes.idx(t) < k);
                assert(self.processed()[self.nodes.idx(t)]);
                assert(!self.processed()[k]);
                assert(tree_inv(self.nodes, self.processed()));
                if self.nodes.open_between(cur, t) {
                    assert(self.processed()[self.nodes.idx(cur)]);
                }
            }
            let ghost g1 = self.nodes;
            let ghost vs1 = self.processed();
            self.nodes.carve(cur, d);
            proof {
                lemma_tree_extend(g1, self.nodes, vs1, t, cur);
                assert(vs1.update(g1.idx(cur), true) =~= Seq::new(
                    self.nodes.area() as nat,
                    |i: int| i < k + 1,
                ));
            }
        }
        // advance the scan
        let mut np = Pos::new(cur.x + 1, cur.y);
        if np.x >= self.nodes.width {
            proof {
                assert((cur.y + 1) * w == cur.y * w + w) by (nonlinear_arith);
            }
            np = Pos::new(0, cur.y + 1);
        }
        self.current_pos = np;
        proof {
            assert(self.cursor_index() == k + 1);
            if k == 0 {
                assert(tree_inv(self.nodes, self.processed())) by {
                    assert(self.processed() =~= Seq::new(
                        self.nodes.area() as nat,
                        |i: int| i < 1,
                    ));
                }
            } else {
                assert(self.processed() =~= Seq::new(self.nodes.area() as nat, |i: int| i < k + 1));
            }
        }
    }
}

} // verus!
