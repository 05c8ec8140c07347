//! The grid model: cell coordinates, adjacency, per-cell wall state, and
//! the one operation that removes a wall.
//!
//! Each interior wall is owned by exactly one of the two cells it
//! separates: a cell owns the wall above it (`up`) and the wall to its
//! left (`left`).  Whether two adjacent cells are connected is always
//! decided by the owning cell's record.

use vstd::prelude::*;
use rand::rngs::StdRng;
use crate::cellset::CellSet;
use crate::rng::rand_below;

verus! {

/// A cell coordinate on the grid: `x` grows to the right, `y` grows
/// downward.
#[derive(Clone, Copy, PartialEq, Eq, Structural, Hash, Debug)]
pub struct Pos {
    pub x: usize,
    pub y: usize,
}

impl Pos {
    pub fn new(x: usize, y: usize) -> (p: Pos)
        ensures
            p.x == x && p.y == y,
    {
        Pos { x, y }
    }
}

/// A move from a cell to one of its four lattice neighbours; the payload
/// is the destination cell.
#[derive(Clone, Copy, PartialEq, Eq, Structural, Debug)]
pub enum Direction {
    Up(Pos),
    Down(Pos),
    Left(Pos),
    Right(Pos),
}

impl Direction {
    /// The destination cell of the move.
    pub open spec fn target(self) -> Pos {
        match self {
            Direction::Up(p) => p,
            Direction::Down(p) => p,
            Direction::Left(p) => p,
            Direction::Right(p) => p,
        }
    }

    pub fn get_pos(&self) -> (p: Pos)
        ensures
            p == self.target(),
    {
        match self {
            Direction::Down(x) => *x,
            Direction::Right(x) => *x,
            Direction::Left(x) => *x,
            Direction::Up(x) => *x,
        }
    }
}

/// Two cells share a grid edge.
pub open spec fn lat_adj(a: Pos, b: Pos) -> bool {
    ||| a.x == b.x && a.y + 1 == b.y
    ||| a.x == b.x && b.y + 1 == a.y
    ||| a.y == b.y && a.x + 1 == b.x
    ||| a.y == b.y && b.x + 1 == a.x
}

/// The direction's destination is the lattice neighbour of `from` that
/// the variant names.
pub open spec fn dir_ok(from: Pos, d: Direction) -> bool {
    match d {
        Direction::Up(t) => t.x == from.x && t.y + 1 == from.y,
        Direction::Down(t) => t.x == from.x && from.y + 1 == t.y,
        Direction::Left(t) => t.y == from.y && t.x + 1 == from.x,
        Direction::Right(t) => t.y == from.y && from.x + 1 == t.x,
    }
}

/// The flat index of a cell in row-major order.
pub open spec fn flat_idx(width: int, p: Pos) -> int {
    p.y * width + p.x
}

/// Per-cell wall state; a `true` flag means the wall is present.
#[derive(Clone, Copy, PartialEq, Eq, Structural, Debug)]
pub struct Node {
    pub up: bool,
    pub left: bool,
}

impl Node {
    pub fn new() -> (n: Node)
        ensures
            n.up && n.left,
    {
        Node { up: true, left: true }
    }
}

/// The maze grid: a `width` by `height` array of wall records, stored
/// row-major as a single flat vector.
#[derive(Clone)]
pub struct Grid {
    pub width: usize,
    pub height: usize,
    pub nodes: Vec<Node>,
}

impl Grid {
    pub open spec fn area(self) -> int {
        self.width * self.height
    }

    pub open spec fn wf(self) -> bool {
        &&& 1 <= self.width
        &&& 1 <= self.height
        &&& self.width * self.height <= usize::MAX
        &&& self.nodes.len() == self.area()
    }

    pub open spec fn in_bounds(self, p: Pos) -> bool {
        p.x < self.width && p.y < self.height
    }

    pub open spec fn idx(self, p: Pos) -> int {
        flat_idx(self.width as int, p)
    }

    pub open spec fn node(self, p: Pos) -> Node {
        self.nodes[self.idx(p)]
    }

    /// The direction is a legal move on this grid: its destination really
    /// is the named lattice neighbour, and both ends are on the grid.
    pub open spec fn valid_dir(self, from: Pos, d: Direction) -> bool {
        dir_ok(from, d) && self.in_bounds(from) && self.in_bounds(d.target())
    }

    /// The wall between two adjacent cells has been removed, as recorded
    /// by the owning cell.
    pub open spec fn open_between(self, a: Pos, b: Pos) -> bool {
        &&& self.in_bounds(a)
        &&& self.in_bounds(b)
        &&& if a.x == b.x && b.y + 1 == a.y {
                !self.node(a).up
            } else if a.x == b.x && a.y + 1 == b.y {
                !self.node(b).up
            } else if a.y == b.y && b.x + 1 == a.x {
                !self.node(a).left
            } else if a.y == b.y && a.x + 1 == b.x {
                !self.node(b).left
            } else {
                false
            }
    }

    /// The outer boundary of the grid is never carved.
    pub open spec fn borders_ok(self) -> bool {
        forall|p: Pos| self.in_bounds(p) ==>
            ((p.y == 0 ==> (#[trigger] self.node(p)).up) && (p.x == 0 ==> self.node(p).left))
    }
}

/// Between `g1` and `g2` exactly the wall between `a` and `b` was
/// carved: it is now open, every wall open before stays open, no other
/// wall opened, and the cleared-wall count rose by one.
pub open spec fn carved_just(g1: Grid, g2: Grid, a: Pos, b: Pos) -> bool {
    &&& g2.open_between(a, b)
    &&& g2.cleared_count() == g1.cleared_count() + 1
    &&& (forall|p: Pos, q: Pos| #[trigger] g1.open_between(p, q) ==> g2.open_between(p, q))
    &&& (forall|p: Pos, q: Pos| #[trigger] g2.open_between(p, q) ==> g1.open_between(p, q) || (p
        == a && q == b) || (p == b && q == a))
}

impl Grid {
    /// How many of the walls owned by cell `i` have been cleared.
    pub open spec fn owned_cleared(self, i: int) -> int {
        let x = i % (self.width as int);
        let y = i / (self.width as int);
        (if y > 0 && !self.nodes[i].up { 1int } else { 0int })
            + (if x > 0 && !self.nodes[i].left { 1int } else { 0int })
    }

    /// Cleared walls owned by the cells of flat index below `k`.
    pub open spec fn cleared_upto(self, k: int) -> int
        decreases k,
    {
        if k <= 0 {
            0
        } else {
            self.cleared_upto(k - 1) + self.owned_cleared(k - 1)
        }
    }

    /// The number of cleared walls of the whole grid.
    pub open spec fn cleared_count(self) -> int {
        self.cleared_upto(self.area())
    }
}

pub proof fn lemma_cleared_nonneg(g: Grid, k: int)
    ensures
        0 <= g.cleared_upto(k),
    decreases k,
{
    if k > 0 {
        lemma_cleared_nonneg(g, k - 1);
    }
}

pub proof fn lemma_cleared_mono(g: Grid, k1: int, k2: int)
    requires
        k1 <= k2,
    ensures
        g.cleared_upto(k1) <= g.cleared_upto(k2),
    decreases k2 - k1,
{
    if k1 < k2 {
        lemma_cleared_mono(g, k1, k2 - 1);
    }
}

/// Changing a single cell changes the cleared-wall count by exactly the
/// change in that cell's own contribution.
pub proof fn lemma_cleared_update(g1: Grid, g2: Grid, j: int, k: int)
    requires
        g1.width == g2.width,
        0 <= j,
        forall|i: int| 0 <= i < k && i != j ==> g1.nodes[i] == g2.nodes[i],
    ensures
        k <= j ==> g2.cleared_upto(k) == g1.cleared_upto(k),
        k > j ==> g2.cleared_upto(k) == g1.cleared_upto(k) + g2.owned_cleared(j) - g1.owned_cleared(j),
    decreases k,
{
    if k > 0 {
        lemma_cleared_update(g1, g2, j, k - 1);
    }
}

/// A grid whose cells all have both walls present has no cleared wall.
pub proof fn lemma_cleared_zero(g: Grid, k: int)
    requires
        forall|i: int| 0 <= i < k ==> (#[trigger] g.nodes[i]).up && g.nodes[i].left,
    ensures
        g.cleared_upto(k) == 0,
    decreases k,
{
    if k > 0 {
        lemma_cleared_zero(g, k - 1);
    }
}

/// Flat indices of cells on the grid are in range, and decompose back
/// into the cell's coordinates.
pub proof fn lemma_idx_bounds(g: Grid, p: Pos)
    requires
        g.wf(),
        g.in_bounds(p),
    ensures
        0 <= g.idx(p) < g.area(),
        g.idx(p) % (g.width as int) == p.x,
        g.idx(p) / (g.width as int) == p.y,
{
    assert(p.y * (g.width as int) + p.x < (g.width as int) * (g.height as int)) by (nonlinear_arith)
        requires
            p.x < g.width,
            p.y < g.height,
            1 <= g.width,
    ;
    assert(0 <= p.y * (g.width as int)) by (nonlinear_arith)
        requires
            0 <= p.y,
            0 <= g.width,
    ;
    vstd::arithmetic::div_mod::lemma_fundamental_div_mod_converse(
        g.idx(p),
        g.width as int,
        p.y as int,
        p.x as int,
    );
}

/// Flat indices of cells within the given bounds are in range, and
/// decompose back into the cell's coordinates.
pub proof fn lemma_flat_idx_bounds(width: int, height: int, p: Pos)
    requires
        1 <= width,
        p.x < width,
        p.y < height,
    ensures
        0 <= flat_idx(width, p) < width * height,
        flat_idx(width, p) % width == p.x,
        flat_idx(width, p) / width == p.y,
{
    assert(p.y * width + p.x < width * height) by (nonlinear_arith)
        requires
            p.x < width,
            p.y < height,
            1 <= width,
    ;
    assert(0 <= p.y * width) by (nonlinear_arith)
        requires
            0 <= p.y,
            0 <= width,
    ;
    vstd::arithmetic::div_mod::lemma_fundamental_div_mod_converse(
        flat_idx(width, p),
        width,
        p.y as int,
        p.x as int,
    );
}

/// Distinct cells within the given bounds have distinct flat indices.
pub proof fn lemma_flat_idx_injective(width: int, height: int, p: Pos, q: Pos)
    requires
        1 <= width,
        p.x < width,
        p.y < height,
        q.x < width,
        q.y < height,
        flat_idx(width, p) == flat_idx(width, q),
    ensures
        p == q,
{
    lemma_flat_idx_bounds(width, height, p);
    lemma_flat_idx_bounds(width, height, q);
}

/// Distinct cells on the grid have distinct flat indices.
pub proof fn lemma_idx_injective(g: Grid, p: Pos, q: Pos)
    requires
        g.wf(),
        g.in_bounds(p),
        g.in_bounds(q),
        g.idx(p) == g.idx(q),
    ensures
        p == q,
{
    lemma_idx_bounds(g, p);
    lemma_idx_bounds(g, q);
}

/// On a grid that is not a single cell, every cell has a lattice
/// neighbour.
pub proof fn lemma_neighbor_exists(g: Grid, p: Pos)
    requires
        g.wf(),
        g.in_bounds(p),
        g.area() >= 2,
    ensures
        exists|q: Pos| #[trigger] lat_adj(p, q) && g.in_bounds(q),
{
    if g.width >= 2 {
        if p.x > 0 {
            let q = Pos { x: (p.x - 1) as usize, y: p.y };
            assert(lat_adj(p, q) && g.in_bounds(q));
        } else {
            let q = Pos { x: (p.x + 1) as usize, y: p.y };
            assert(lat_adj(p, q) && g.in_bounds(q));
        }
    } else {
        assert(g.height >= 2);
        if p.y > 0 {
            let q = Pos { x: p.x, y: (p.y - 1) as usize };
            assert(lat_adj(p, q) && g.in_bounds(q));
        } else {
            let q = Pos { x: p.x, y: (p.y + 1) as usize };
            assert(lat_adj(p, q) && g.in_bounds(q));
        }
    }
}

/// On a grid with no cleared wall and intact borders, no two cells are
/// open to each other.
pub proof fn lemma_no_open_walls(g: Grid)
    requires
        g.wf(),
        g.cleared_count() == 0,
        g.borders_ok(),
    ensures
        forall|p: Pos, q: Pos| !g.open_between(p, q),
{
    assert forall|p: Pos, q: Pos| !g.open_between(p, q) by {
        if g.open_between(p, q) {
            if p.x == q.x && q.y + 1 == p.y {
                lemma_owned_cleared_pos(g, p);
            } else if p.x == q.x && p.y + 1 == q.y {
                lemma_owned_cleared_pos(g, q);
            } else if p.y == q.y && q.x + 1 == p.x {
                lemma_owned_cleared_pos(g, p);
            } else {
                lemma_owned_cleared_pos(g, q);
            }
        }
    }
}

/// A cell with a cleared owned wall contributes to the total count.
proof fn lemma_owned_cleared_pos(g: Grid, p: Pos)
    requires
        g.wf(),
        g.in_bounds(p),
        g.cleared_count() == 0,
    ensures
        p.y > 0 ==> g.node(p).up,
        p.x > 0 ==> g.node(p).left,
{
    lemma_idx_bounds(g, p);
    lemma_cleared_nonneg(g, g.idx(p));
    lemma_cleared_mono(g, g.idx(p) + 1, g.area());
    assert(g.cleared_upto(g.idx(p) + 1) == g.cleared_upto(g.idx(p)) + g.owned_cleared(g.idx(p)));
}

impl Grid {
    /// A fresh grid with every wall present.
    pub fn new(width: usize, height: usize) -> (g: Grid)
        requires
            1 <= width,
            1 <= height,
            width * height <= usize::MAX,
        ensures
            g.wf(),
            g.width == width,
            g.height == height,
            forall|i: int| 0 <= i < g.area() ==> (#[trigger] g.nodes[i]).up && g.nodes[i].left,
            g.cleared_count() == 0,
            g.borders_ok(),
    {
        let total: usize = width * height;
        let mut nodes: Vec<Node> = Vec::new();
        let mut i: usize = 0;
        while i < total
            invariant
                i <= total,
                nodes.len() == i,
                forall|j: int| 0 <= j < i ==> (#[trigger] nodes[j]).up && nodes[j].left,
            decreases total - i,
        {
            nodes.push(Node::new());
            i = i + 1;
        }
        let g = Grid { width, height, nodes };
        proof {
            lemma_cleared_zero(g, g.area());
            assert forall|p: Pos| g.in_bounds(p) implies ((p.y == 0 ==> (#[trigger] g.node(p)).up)
                && (p.x == 0 ==> g.node(p).left)) by {
                lemma_idx_bounds(g, p);
            }
        }
        g
    }

    /// The wall record of one cell.
    pub fn node_at(&self, p: Pos) -> (n: Node)
        requires
            self.wf(),
            self.in_bounds(p),
        ensures
            n == self.node(p),
    {
        proof {
            lemma_idx_bounds(*self, p);
        }
        let i: usize = p.y * self.width + p.x;
        self.nodes[i]
    }

    /// Count the cleared walls of the whole grid.
    pub fn count_cleared(&self) -> (r: usize)
        requires
            self.wf(),
            self.cleared_count() <= usize::MAX,
        ensures
            r == self.cleared_count(),
    {
        let ghost w = self.width as int;
        let ghost h = self.height as int;
        let total: usize = self.width * self.height;
        let mut r: usize = 0;
        let mut i: usize = 0;
        let mut x: usize = 0;
        let mut y: usize = 0;
        while i < total
            invariant
                self.wf(),
                self.cleared_count() <= usize::MAX,
                w == self.width as int,
                h == self.height as int,
                total == self.area(),
                i == y * self.width + x,
                x < self.width,
                y <= self.height,
                i <= total,
                r == self.cleared_upto(i as int),
            decreases total - i,
        {
            proof {
                assert(y < self.height) by (nonlinear_arith)
                    requires
                        i == y * self.width + x,
                        i < total,
                        total == self.width * self.height,
                        x < self.width,
                        y <= self.height,
                ;
                let p = Pos { x, y };
                lemma_flat_idx_bounds(w, h, p);
                lemma_cleared_nonneg(*self, i as int);
                lemma_cleared_mono(*self, i as int + 1, self.area());
                assert(self.cleared_upto(i as int + 1) == self.cleared_upto(i as int)
                    + self.owned_cleared(i as int));
            }
            let n = self.nodes[i];
            if y > 0 && !n.up {
                r = r + 1;
            }
            if x > 0 && !n.left {
                r = r + 1;
            }
            i = i + 1;
            x = x + 1;
            if x == self.width {
                proof {
                    assert((y + 1) * self.width == y * self.width + self.width) by (nonlinear_arith);
                }
                x = 0;
                y = y + 1;
            }
        }
        r
    }

    /// Whether the wall between `from` and the destination of `d` has
    /// been removed.
    pub fn is_open(&self, from: Pos, d: Direction) -> (r: bool)
        requires
            self.wf(),
            self.valid_dir(from, d),
        ensures
            r == self.open_between(from, d.target()),
    {
        match d {
            Direction::Up(_) => !self.node_at(from).up,
            Direction::Down(p) => !self.node_at(p).up,
            Direction::Left(_) => !self.node_at(from).left,
            Direction::Right(p) => !self.node_at(p).left,
        }
    }

    /// Remove the wall between `from` and the destination of `d`, by
    /// clearing the owning cell's flag.  The wall must still be present:
    /// no wall is ever cleared twice.
    pub fn carve(&mut self, from: Pos, d: Direction)
        requires
            old(self).wf(),
            old(self).valid_dir(from, d),
            !old(self).open_between(from, d.target()),
        ensures
            final(self).wf(),
            final(self).width == old(self).width,
            final(self).height == old(self).height,
            final(self).open_between(from, d.target()),
            forall|p: Pos, q: Pos| #[trigger] old(self).open_between(p, q) ==> final(self).open_between(p, q),
            forall|p: Pos, q: Pos| #[trigger] final(self).open_between(p, q) ==>
                old(self).open_between(p, q)
                || (p == from && q == d.target())
                || (p == d.target() && q == from),
            final(self).cleared_count() == old(self).cleared_count() + 1,
            old(self).borders_ok() ==> final(self).borders_ok(),
            carved_just(*old(self), *final(self), from, d.target()),
    {
        let t = d.get_pos();
        let owner: Pos;
        let clear_up: bool;
        match d {
            Direction::Up(_) => {
                owner = from;
                clear_up = true;
            }
            Direction::Down(p) => {
                owner = p;
                clear_up = true;
            }
            Direction::Left(_) => {
                owner = from;
                clear_up = false;
            }
            Direction::Right(p) => {
                owner = p;
                clear_up = false;
            }
        }
        proof {
            lemma_idx_bounds(*self, owner);
        }
        let i: usize = owner.y * self.width + owner.x;
        let old_node = self.nodes[i];
        let new_node = if clear_up {
            Node { up: false, left: old_node.left }
        } else {
            Node { up: old_node.up, left: false }
        };
        self.nodes.set(i, new_node);
        proof {
            let g1 = *old(self);
            let g2 = *self;
            assert(g2.node(owner) == new_node);
            assert forall|p: Pos| g1.in_bounds(p) && p != owner implies g2.node(p) == g1.node(p) by {
                lemma_idx_bounds(g1, p);
                if g1.idx(p) == i {
                    lemma_idx_injective(g1, p, owner);
                }
            }
            // the freshly carved wall is open
            assert(g2.open_between(from, t));
            // carving only opens; every previously open wall stays open
            assert forall|p: Pos, q: Pos| #[trigger] g1.open_between(p, q) implies g2.open_between(
                p,
                q,
            ) by {
                if p != owner {
                    assert(g2.node(p) == g1.node(p));
                }
                if q != owner {
                    assert(g2.node(q) == g1.node(q));
                }
            }
            // the only newly open wall is the one between `from` and `t`
            assert forall|p: Pos, q: Pos| #[trigger] g2.open_between(p, q) implies g1.open_between(
                p,
                q,
            ) || (p == from && q == t) || (p == t && q == from) by {
                if !g1.open_between(p, q) {
                    if p != owner {
                        assert(g2.node(p) == g1.node(p));
                    }
                    if q != owner {
                        assert(g2.node(q) == g1.node(q));
                    }
                }
            }
            // exactly one more wall is counted as cleared
            lemma_cleared_update(g1, g2, i as int, g1.area());
            assert(g2.owned_cleared(i as int) == g1.owned_cleared(i as int) + 1);
            // the border walls are untouched
            if g1.borders_ok() {
                assert forall|p: Pos| g2.in_bounds(p) implies ((p.y == 0 ==> (#[trigger] g2.node(
                    p,
                )).up) && (p.x == 0 ==> g2.node(p).left)) by {
                    if p != owner {
                        assert(g2.node(p) == g1.node(p));
                    }
                }
            }
        }
    }
}

impl Pos {
    /// The legal moves from this cell: one direction for each lattice
    /// neighbour that lies on the grid.
    pub fn get_neighbors(&self, width: usize, height: usize) -> (r: Vec<Direction>)
        requires
            1 <= width,
            1 <= height,
            self.x < width,
            self.y < height,
        ensures
            forall|i: int| 0 <= i < r@.len() ==> dir_ok(*self, #[trigger] r@[i])
                && r@[i].target().x < width && r@[i].target().y < height,
            forall|q: Pos| #[trigger] lat_adj(*self, q) && q.x < width && q.y < height
                ==> exists|i: int| 0 <= i < r@.len() && (#[trigger] r@[i]).target() == q,
            r@.len() == (if self.x > 0 { 1int } else { 0int }) + (if self.x + 1 < width { 1int } else { 0int })
                + (if self.y > 0 { 1int } else { 0int }) + (if self.y + 1 < height { 1int } else { 0int }),
            forall|i: int, j: int| 0 <= i < j < r@.len() ==> (#[trigger] r@[i]).target() != (
            #[trigger] r@[j]).target(),
    {
        let mut neighbors: Vec<Direction> = Vec::new();
        if self.x > 0 {
            neighbors.push(Direction::Left(Pos::new(self.x - 1, self.y)));
        }
        if self.x < width - 1 {
            neighbors.push(Direction::Right(Pos::new(self.x + 1, self.y)));
        }
        if self.y > 0 {
            neighbors.push(Direction::Up(Pos::new(self.x, self.y - 1)));
        }
        if self.y < height - 1 {
            neighbors.push(Direction::Down(Pos::new(self.x, self.y + 1)));
        }
        proof {
            assert forall|q: Pos| #[trigger] lat_adj(*self, q) && q.x < width && q.y < height
                implies exists|i: int| 0 <= i < neighbors@.len() && (#[trigger] neighbors@[i]).target()
                == q by {
                let left_there: int = if self.x > 0 { 1int } else { 0int };
                let right_there: int = if self.x + 1 < width { 1int } else { 0int };
                let up_there: int = if self.y > 0 { 1int } else { 0int };
                if q.y == self.y && q.x + 1 == self.x {
                    assert(neighbors@[0].target() == q);
                } else if q.y == self.y && self.x + 1 == q.x {
                    assert(neighbors@[left_there].target() == q);
                } else if q.x == self.x && q.y + 1 == self.y {
                    assert(neighbors@[left_there + right_there].target() == q);
                } else {
                    assert(q.x == self.x && self.y + 1 == q.y);
                    assert(neighbors@[left_there + right_there + up_there].target() == q);
                }
            }
        }
        neighbors
    }

    /// The legal moves from this cell whose destination is not in `set`.
    pub fn neighbors_not_in(&self, set: &CellSet) -> (r: Vec<Direction>)
        requires
            set.wf(),
            self.x < set.width,
            self.y < set.height,
        ensures
            forall|i: int| 0 <= i < r@.len() ==> dir_ok(*self, #[trigger] r@[i])
                && set.in_bounds(r@[i].target()) && !set.has(r@[i].target()),
            forall|q: Pos| #[trigger] lat_adj(*self, q) && set.in_bounds(q) && !set.has(q)
                ==> exists|i: int| 0 <= i < r@.len() && (#[trigger] r@[i]).target() == q,
            forall|i: int, j: int| 0 <= i < j < r@.len() ==> (#[trigger] r@[i]).target() != (
            #[trigger] r@[j]).target(),
    {
        let all = self.get_neighbors(set.width, set.height);
        let mut out: Vec<Direction> = Vec::new();
        let mut i: usize = 0;
        while i < all.len()
            invariant
                set.wf(),
                i <= all@.len(),
                forall|j: int| 0 <= j < all@.len() ==> dir_ok(*self, #[trigger] all@[j])
                    && all@[j].target().x < set.width && all@[j].target().y < set.height,
                forall|j1: int, j2: int| 0 <= j1 < j2 < all@.len() ==> (
                #[trigger] all@[j1]).target() != (#[trigger] all@[j2]).target(),
                forall|k: int| 0 <= k < out@.len() ==> dir_ok(*self, #[trigger] out@[k])
                    && set.in_bounds(out@[k].target()) && !set.has(out@[k].target()),
                forall|j: int| 0 <= j < i && !set.has((#[trigger] all@[j]).target())
                    ==> exists|k: int| 0 <= k < out@.len() && out@[k] == all@[j],
                forall|k: int| 0 <= k < out@.len() ==> exists|j: int| 0 <= j < i && (
                #[trigger] out@[k]) == all@[j],
                forall|k1: int, k2: int| 0 <= k1 < k2 < out@.len() ==> (
                #[trigger] out@[k1]).target() != (#[trigger] out@[k2]).target(),
            decreases all@.len() - i,
        {
            let d = all[i];
            let ghost out0 = out@;
            if !set.contains(d.get_pos()) {
                out.push(d);
            }
            proof {
                assert forall|j: int| 0 <= j < i + 1 && !set.has((#[trigger] all@[j]).target())
                    implies exists|k: int| 0 <= k < out@.len() && out@[k] == all@[j] by {
                    if j < i {
                        let k = choose|k: int| 0 <= k < out0.len() && out0[k] == all@[j];
                        assert(out@[k] == all@[j]);
                    } else {
                        assert(out@[out@.len() - 1] == d);
                    }
                }
                assert forall|k: int| 0 <= k < out@.len() implies exists|j: int| 0 <= j < i + 1
                    && (#[trigger] out@[k]) == all@[j] by {
                    if k < out0.len() {
                        let j = choose|j: int| 0 <= j < i && out0[k] == all@[j];
                        assert(out@[k] == all@[j]);
                    } else {
                        assert(out@[k] == all@[i as int]);
                    }
                }
                assert forall|k1: int, k2: int| 0 <= k1 < k2 < out@.len() implies (
                #[trigger] out@[k1]).target() != (#[trigger] out@[k2]).target() by {
                    if k2 < out0.len() {
                        assert(out@[k1] == out0[k1] && out@[k2] == out0[k2]);
                    } else {
                        // the fresh pick comes later in the base list
                        // than every earlier one, and their targets are
                        // pairwise distinct there
                        assert(out@[k2] == d);
                        let j1 = choose|j: int| 0 <= j < i && out0[k1] == all@[j];
                        assert(out@[k1] == all@[j1]);
                        assert(all@[j1].target() != all@[i as int].target());
                    }
                }
            }
            i = i + 1;
        }
        proof {
            assert forall|q: Pos| #[trigger] lat_adj(*self, q) && set.in_bounds(q) && !set.has(q)
                implies exists|k: int| 0 <= k < out@.len() && (#[trigger] out@[k]).target() == q by {
                let j = choose|j: int| 0 <= j < all@.len() && (#[trigger] all@[j]).target() == q;
                let k = choose|k: int| 0 <= k < out@.len() && #[trigger] out@[k] == all@[j];
                assert(out@[k].target() == q);
            }
        }
        out
    }

    /// The legal moves from this cell whose destination is in `set`.
    pub fn neighbors_in(&self, set: &CellSet) -> (r: Vec<Direction>)
        requires
            set.wf(),
            self.x < set.width,
            self.y < set.height,
        ensures
            forall|i: int| 0 <= i < r@.len() ==> dir_ok(*self, #[trigger] r@[i])
                && set.in_bounds(r@[i].target()) && set.has(r@[i].target()),
            forall|q: Pos| #[trigger] lat_adj(*self, q) && set.in_bounds(q) && set.has(q)
                ==> exists|i: int| 0 <= i < r@.len() && (#[trigger] r@[i]).target() == q,
            forall|i: int, j: int| 0 <= i < j < r@.len() ==> (#[trigger] r@[i]).target() != (
            #[trigger] r@[j]).target(),
    {
        let all = self.get_neighbors(set.width, set.height);
        let mut out: Vec<Direction> = Vec::new();
        let mut i: usize = 0;
        while i < all.len()
            invariant
                set.wf(),
                i <= all@.len(),
                forall|j: int| 0 <= j < all@.len() ==> dir_ok(*self, #[trigger] all@[j])
                    && all@[j].target().x < set.width && all@[j].target().y < set.height,
                forall|j1: int, j2: int| 0 <= j1 < j2 < all@.len() ==> (
                #[trigger] all@[j1]).target() != (#[trigger] all@[j2]).target(),
                forall|k: int| 0 <= k < out@.len() ==> dir_ok(*self, #[trigger] out@[k])
                    && set.in_bounds(out@[k].target()) && set.has(out@[k].target()),
                forall|j: int| 0 <= j < i && set.has((#[trigger] all@[j]).target())
                    ==> exists|k: int| 0 <= k < out@.len() && out@[k] == all@[j],
                forall|k: int| 0 <= k < out@.len() ==> exists|j: int| 0 <= j < i && (
                #[trigger] out@[k]) == all@[j],
                forall|k1: int, k2: int| 0 <= k1 < k2 < out@.len() ==> (
                #[trigger] out@[k1]).target() != (#[trigger] out@[k2]).target(),
            decreases all@.len() - i,
        {
            let d = all[i];
            let ghost out0 = out@;
            if set.contains(d.get_pos()) {
                out.push(d);
            }
            proof {
                assert forall|j: int| 0 <= j < i + 1 && set.has((#[trigger] all@[j]).target())
                    implies exists|k: int| 0 <= k < out@.len() && out@[k] == all@[j] by {
                    if j < i {
                        let k = choose|k: int| 0 <= k < out0.len() && out0[k] == all@[j];
                        assert(out@[k] == all@[j]);
                    } else {
                        assert(out@[out@.len() - 1] == d);
                    }
                }
                assert forall|k: int| 0 <= k < out@.len() implies exists|j: int| 0 <= j < i + 1
                    && (#[trigger] out@[k]) == all@[j] by {
                    if k < out0.len() {
                        let j = choose|j: int| 0 <= j < i && out0[k] == all@[j];
                        assert(out@[k] == all@[j]);
                    } else {
                        assert(out@[k] == all@[i as int]);
                    }
                }
                assert forall|k1: int, k2: int| 0 <= k1 < k2 < out@.len() implies (
                #[trigger] out@[k1]).target() != (#[trigger] out@[k2]).target() by {
                    if k2 < out0.len() {
                        assert(out@[k1] == out0[k1] && out@[k2] == out0[k2]);
                    } else {
                        // the fresh pick comes later in the base list
                        // than every earlier one, and their targets are
                        // pairwise distinct there
                        assert(out@[k2] == d);
                        let j1 = choose|j: int| 0 <= j < i && out0[k1] == all@[j];
                        assert(out@[k1] == all@[j1]);
                        assert(all@[j1].target() != all@[i as int].target());
                    }
                }
            }
            i = i + 1;
        }
        proof {
            assert forall|q: Pos| #[trigger] lat_adj(*self, q) && set.in_bounds(q) && set.has(q)
                implies exists|k: int| 0 <= k < out@.len() && (#[trigger] out@[k]).target() == q by {
                let j = choose|j: int| 0 <= j < all@.len() && (#[trigger] all@[j]).target() == q;
                let k = choose|k: int| 0 <= k < out@.len() && #[trigger] out@[k] == all@[j];
                assert(out@[k].target() == q);
            }
        }
        out
    }

    /// Some cell in `set` borders this cell.
    pub fn has_neighbors_in(&self, set: &CellSet) -> (r: bool)
        requires
            set.wf(),
            self.x < set.width,
            self.y < set.height,
        ensures
            r == exists|q: Pos| #[trigger] lat_adj(*self, q) && set.in_bounds(q) && set.has(q),
    {
        let v = self.neighbors_in(set);
        let r = v.len() > 0;
        proof {
            if v@.len() > 0 {
                let q = v@[0].target();
                assert(lat_adj(*self, q) && set.in_bounds(q) && set.has(q));
            }
        }
        r
    }

    /// A uniformly random legal move from this cell, if it has any.
    pub fn get_random_neighbor(&self, rng: &mut StdRng, width: usize, height: usize) -> (r: Option<
        Direction,
    >)
        requires
            1 <= width,
            1 <= height,
            self.x < width,
            self.y < height,
        ensures
            match r {
                Some(d) => dir_ok(*self, d) && d.target().x < width && d.target().y < height,
                None => width * height == 1,
            },
    {
        let cands = self.get_neighbors(width, height);
        if cands.len() == 0 {
            proof {
                if width >= 2 || height >= 2 {
                    let q = if self.x > 0 {
                        Pos { x: (self.x - 1) as usize, y: self.y }
                    } else if self.x + 1 < width {
                        Pos { x: (self.x + 1) as usize, y: self.y }
                    } else if self.y > 0 {
                        Pos { x: self.x, y: (self.y - 1) as usize }
                    } else {
                        Pos { x: self.x, y: (self.y + 1) as usize }
                    };
                    assert(lat_adj(*self, q) && q.x < width && q.y < height);
                }
                assert(width * height == 1) by (nonlinear_arith)
                    requires
                        1 <= width,
                        1 <= height,
                        width < 2,
                        height < 2,
                ;
            }
            None
        } else {
            let k = rand_below(rng, cands.len());
            Some(cands[k])
        }
    }

    /// A uniformly random legal move to a cell outside `set`, if any.
    pub fn get_random_neighbor_not_in(&self, rng: &mut StdRng, set: &CellSet) -> (r: Option<
        Direction,
    >)
        requires
            set.wf(),
            self.x < set.width,
            self.y < set.height,
        ensures
            match r {
                Some(d) => dir_ok(*self, d) && set.in_bounds(d.target()) && !set.has(d.target()),
                None => forall|q: Pos| #[trigger] lat_adj(*self, q) && set.in_bounds(q)
                    ==> set.has(q),
            },
    {
        let cands = self.neighbors_not_in(set);
        if cands.len() == 0 {
            None
        } else {
            let k = rand_below(rng, cands.len());
            Some(cands[k])
        }
    }

    /// A uniformly random legal move to a cell inside `set`, if any.
    pub fn get_random_neighbor_in(&self, rng: &mut StdRng, set: &CellSet) -> (r: Option<Direction>)
        requires
            set.wf(),
            self.x < set.width,
            self.y < set.height,
        ensures
            match r {
                Some(d) => dir_ok(*self, d) && set.in_bounds(d.target()) && set.has(d.target()),
                None => forall|q: Pos| #[trigger] lat_adj(*self, q) && set.in_bounds(q)
                    ==> !set.has(q),
            },
    {
        let cands = self.neighbors_in(set);
        if cands.len() == 0 {
            None
        } else {
            let k = rand_below(rng, cands.len());
            Some(cands[k])
        }
    }

    /// Remove the wall between this cell and the destination of
    /// `neighbor`, as recorded by the owning cell.
    pub fn make_connection(&self, neighbor: &Direction, grid: &mut Grid)
        requires
            old(grid).wf(),
            old(grid).valid_dir(*self, *neighbor),
            !old(grid).open_between(*self, neighbor.target()),
        ensures
            final(grid).wf(),
            final(grid).width == old(grid).width,
            final(grid).height == old(grid).height,
            final(grid).open_between(*self, neighbor.target()),
            forall|p: Pos, q: Pos| #[trigger] old(grid).open_between(p, q)
                ==> final(grid).open_between(p, q),
            forall|p: Pos, q: Pos| #[trigger] final(grid).open_between(p, q)
                ==> old(grid).open_between(p, q)
                || (p == *self && q == neighbor.target())
                || (p == neighbor.target() && q == *self),
            final(grid).cleared_count() == old(grid).cleared_count() + 1,
            old(grid).borders_ok() ==> final(grid).borders_ok(),
            carved_just(*old(grid), *final(grid), *self, neighbor.target()),
    {
        grid.carve(*self, *neighbor)
    }
}

/// Record `p` as the most recent cell of a bounded display trail: the
/// result is `p` followed by the old entries in order, truncated to
/// `cap` entries.
pub fn push_recent(trail: &mut Vec<Pos>, p: Pos, cap: usize)
    requires
        cap >= 1,
    ensures
        final(trail)@.len() == (if old(trail)@.len() + 1 <= cap {
            old(trail)@.len() + 1int
        } else {
            cap as int
        }),
        final(trail)@[0] == p,
        forall|k: int| 1 <= k < final(trail)@.len() ==> final(trail)@[k] == old(trail)@[k - 1],
{
    let mut out: Vec<Pos> = Vec::new();
    out.push(p);
    let mut i: usize = 0;
    while i < trail.len() && out.len() < cap
        invariant
            out@.len() == i + 1,
            out@.len() <= cap,
            out@[0] == p,
            i <= trail@.len(),
            cap >= 1,
            forall|k: int| 1 <= k < out@.len() ==> out@[k] == trail@[k - 1],
        decreases trail@.len() - i,
    {
        let c = trail[i];
        out.push(c);
        i = i + 1;
    }
    *trail = out;
}

} // verus!
