//! The spanning-tree invariant shared by the generation engines.
//!
//! An engine that grows its maze by attaching one unvisited cell at a
//! time to the visited region maintains `tree_inv`: the cleared walls
//! stay inside the visited region, connect all of it, and number exactly
//! one less than the visited cells.  When the visited region covers the
//! grid, the maze is a spanning tree.

use vstd::prelude::*;
use crate::grid::{Grid, Pos, flat_idx, lat_adj, lemma_flat_idx_bounds, lemma_flat_idx_injective,
    lemma_idx_bounds, lemma_no_open_walls};
use crate::cellset::{count_true, lemma_count_all_false, lemma_count_full, lemma_count_member,
    lemma_count_update};
use crate::path::{connected, lemma_connected_adj, lemma_connected_monotone, lemma_connected_refl,
    lemma_connected_sym, lemma_connected_trans};

verus! {

/// The cleared walls form a spanning tree of the whole grid: one wall
/// fewer than there are cells, and every pair of cells joined.
pub open spec fn is_spanning_tree(g: Grid) -> bool {
    &&& g.wf()
    &&& g.cleared_count() == g.area() - 1
    &&& forall|a: Pos, b: Pos| g.in_bounds(a) && g.in_bounds(b) ==> #[trigger] connected(g, a, b)
}

/// The cleared walls form a tree over the visited cells `vs` (given as
/// one flag per cell in row-major order).
pub open spec fn tree_inv(g: Grid, vs: Seq<bool>) -> bool {
    &&& g.wf()
    &&& vs.len() == g.area()
    &&& g.borders_ok()
    &&& count_true(vs) >= 1
    &&& g.cleared_count() == count_true(vs) - 1
    &&& forall|p: Pos, q: Pos| #[trigger] g.open_between(p, q) ==> vs[g.idx(p)] && vs[g.idx(q)]
    &&& forall|p: Pos, q: Pos| g.in_bounds(p) && g.in_bounds(q) && #[trigger] vs[g.idx(p)]
        && #[trigger] vs[g.idx(q)] ==> connected(g, p, q)
}

/// A fresh grid with a single visited cell is a (one-node) tree.
pub proof fn lemma_tree_start(g: Grid, vs: Seq<bool>, p: Pos)
    requires
        g.wf(),
        g.cleared_count() == 0,
        g.borders_ok(),
        g.in_bounds(p),
        vs.len() == g.area(),
        forall|i: int| 0 <= i < vs.len() ==> vs[i] == (i == g.idx(p)),
    ensures
        tree_inv(g, vs),
        count_true(vs) == 1,
{
    lemma_idx_bounds(g, p);
    let s0 = Seq::new(vs.len(), |i: int| false);
    lemma_count_all_false(s0, s0.len() as int);
    lemma_count_update(s0, vs, g.idx(p), vs.len() as int);
    lemma_no_open_walls(g);
    assert forall|a: Pos, b: Pos| g.in_bounds(a) && g.in_bounds(b) && #[trigger] vs[g.idx(a)]
        && #[trigger] vs[g.idx(b)] implies connected(g, a, b) by {
        lemma_idx_bounds(g, a);
        lemma_idx_bounds(g, b);
        lemma_flat_idx_injective(g.width as int, g.height as int, a, p);
        lemma_flat_idx_injective(g.width as int, g.height as int, b, p);
        lemma_connected_refl(g, a);
    }
}

/// Carving the one wall between a visited cell `a` and an unvisited
/// cell `b` extends the tree by the leaf `b`.
pub proof fn lemma_tree_extend(g1: Grid, g2: Grid, vs: Seq<bool>, a: Pos, b: Pos)
    requires
        tree_inv(g1, vs),
        g1.in_bounds(a),
        g1.in_bounds(b),
        vs[g1.idx(a)],
        !vs[g1.idx(b)],
        g2.wf(),
        g2.width == g1.width,
        g2.height == g1.height,
        g2.open_between(a, b),
        forall|p: Pos, q: Pos| #[trigger] g1.open_between(p, q) ==> g2.open_between(p, q),
        forall|p: Pos, q: Pos| #[trigger] g2.open_between(p, q) ==> g1.open_between(p, q) || (p == a
            && q == b) || (p == b && q == a),
        g2.cleared_count() == g1.cleared_count() + 1,
        g2.borders_ok(),
    ensures
        tree_inv(g2, vs.update(g1.idx(b), true)),
        count_true(vs.update(g1.idx(b), true)) == count_true(vs) + 1,
{
    let w = g1.width as int;
    let h = g1.height as int;
    let vs2 = vs.update(g1.idx(b), true);
    lemma_idx_bounds(g1, a);
    lemma_idx_bounds(g1, b);
    lemma_count_update(vs, vs2, g1.idx(b), vs.len() as int);
    // every cleared wall still runs between visited cells
    assert forall|p: Pos, q: Pos| #[trigger] g2.open_between(p, q) implies vs2[g2.idx(p)]
        && vs2[g2.idx(q)] by {
        lemma_flat_idx_bounds(w, h, p);
        lemma_flat_idx_bounds(w, h, q);
        if g1.open_between(p, q) {
            assert(vs[g1.idx(p)] && vs[g1.idx(q)]);
        }
    }
    // all visited cells remain mutually connected
    assert forall|p: Pos, q: Pos| g2.in_bounds(p) && g2.in_bounds(q) && #[trigger] vs2[g2.idx(p)]
        && #[trigger] vs2[g2.idx(q)] implies connected(g2, p, q) by {
        lemma_flat_idx_bounds(w, h, p);
        lemma_flat_idx_bounds(w, h, q);
        let p_old = g1.idx(p) != g1.idx(b);
        let q_old = g1.idx(q) != g1.idx(b);
        if !p_old {
            lemma_flat_idx_injective(w, h, p, b);
        }
        if !q_old {
            lemma_flat_idx_injective(w, h, q, b);
        }
        if p_old && q_old {
            lemma_connected_monotone(g1, g2, p, q);
        } else if p_old && !q_old {
            lemma_connected_monotone(g1, g2, p, a);
            lemma_connected_adj(g2, a, b);
            lemma_connected_trans(g2, p, a, b);
        } else if !p_old && q_old {
            lemma_connected_adj(g2, a, b);
            lemma_connected_sym(g2, a, b);
            lemma_connected_monotone(g1, g2, a, q);
            lemma_connected_trans(g2, b, a, q);
        } else {
            lemma_connected_refl(g2, p);
        }
    }
}

/// A tree whose visited region covers the grid is a spanning tree.
pub proof fn lemma_tree_complete(g: Grid, vs: Seq<bool>)
    requires
        tree_inv(g, vs),
        count_true(vs) == g.area(),
    ensures
        is_spanning_tree(g),
{
    lemma_count_full(vs, vs.len() as int);
    assert forall|a: Pos, b: Pos| g.in_bounds(a) && g.in_bounds(b) implies #[trigger] connected(
        g,
        a,
        b,
    ) by {
        lemma_idx_bounds(g, a);
        lemma_idx_bounds(g, b);
        assert(vs[g.idx(a)] && vs[g.idx(b)]);
    }
}

pub open spec fn dist1(u: int, v: int) -> int {
    if u >= v {
        u - v
    } else {
        v - u
    }
}

/// Wherever a member cell and a non-member cell both exist, somewhere a
/// member cell borders a non-member cell.
pub proof fn lemma_boundary(width: int, height: int, vs: Seq<bool>, a: Pos, b: Pos)
    requires
        1 <= width,
        1 <= height,
        width * height <= usize::MAX,
        vs.len() == width * height,
        a.x < width,
        a.y < height,
        b.x < width,
        b.y < height,
        vs[flat_idx(width, a)],
        !vs[flat_idx(width, b)],
    ensures
        exists|p: Pos, q: Pos| #[trigger] lat_adj(p, q) && p.x < width && p.y < height && q.x
            < width && q.y < height && vs[flat_idx(width, p)] && !vs[flat_idx(width, q)],
    decreases dist1(a.x as int, b.x as int) + dist1(a.y as int, b.y as int),
{
    let step: Pos = if a.x < b.x {
        Pos { x: (a.x + 1) as usize, y: a.y }
    } else if a.x > b.x {
        Pos { x: (a.x - 1) as usize, y: a.y }
    } else if a.y < b.y {
        Pos { x: a.x, y: (a.y + 1) as usize }
    } else {
        Pos { x: a.x, y: (a.y - 1) as usize }
    };
    assert(a != b);
    assert(lat_adj(a, step) && step.x < width && step.y < height);
    lemma_flat_idx_bounds(width, height, step);
    if !vs[flat_idx(width, step)] {
        assert(lat_adj(a, step) && a.x < width && a.y < height && step.x < width && step.y < height
            && vs[flat_idx(width, a)] && !vs[flat_idx(width, step)]);
    } else {
        lemma_boundary(width, height, vs, step, b);
    }
}

/// A full count means every cell of the grid is a member.
pub proof fn lemma_full_cover(width: int, height: int, vs: Seq<bool>)
    requires
        1 <= width,
        1 <= height,
        vs.len() == width * height,
        count_true(vs) == width * height,
    ensures
        forall|p: Pos| p.x < width && p.y < height ==> vs[#[trigger] flat_idx(width, p)],
{
    lemma_count_full(vs, vs.len() as int);
    assert forall|p: Pos| p.x < width && p.y < height implies vs[#[trigger] flat_idx(width, p)] by {
        lemma_flat_idx_bounds(width, height, p);
    }
}

/// A positive count yields a member cell.
pub proof fn lemma_member_pos(width: int, height: int, vs: Seq<bool>)
    requires
        1 <= width,
        1 <= height,
        width * height <= usize::MAX,
        vs.len() == width * height,
        count_true(vs) >= 1,
    ensures
        exists|p: Pos| p.x < width && p.y < height && vs[#[trigger] flat_idx(width, p)],
{
    lemma_count_member(vs, vs.len() as int);
    let i = choose|i: int| 0 <= i < vs.len() && vs[i];
    let p = pos_of_index(width, height, i);
    assert(p.x < width && p.y < height && vs[flat_idx(width, p)]);
}

/// The cell whose flat index is `i`.
pub proof fn pos_of_index(width: int, height: int, i: int) -> (p: Pos)
    requires
        1 <= width,
        1 <= height,
        width * height <= usize::MAX,
        0 <= i < width * height,
    ensures
        p.x < width,
        p.y < height,
        flat_idx(width, p) == i,
{
    vstd::arithmetic::div_mod::lemma_fundamental_div_mod(i, width);
    vstd::arithmetic::div_mod::lemma_mod_bound(i, width);
    let q = i / width;
    let r = i % width;
    assert(q < height) by (nonlinear_arith)
        requires
            i < width * height,
            i == width * q + r,
            0 <= r < width,
            1 <= width,
            1 <= height,
    ;
    assert(0 <= q) by (nonlinear_arith)
        requires
            0 <= i,
            i == width * q + r,
            0 <= r < width,
            1 <= width,
    ;
    assert(height <= width * height && width <= width * height) by (nonlinear_arith)
        requires
            1 <= width,
            1 <= height,
    ;
    let p = Pos { x: r as usize, y: q as usize };
    assert(p.x == r && p.y == q);
    assert(p.y * width + p.x == i) by (nonlinear_arith)
        requires
            p.y == q,
            p.x == r,
            i == width * q + r,
    ;
    p
}

/// A set that holds every cell of the grid has a full count.
pub proof fn lemma_cover_full(width: int, height: int, vs: Seq<bool>)
    requires
        1 <= width,
        1 <= height,
        width * height <= usize::MAX,
        vs.len() == width * height,
        forall|p: Pos| p.x < width && p.y < height ==> vs[#[trigger] flat_idx(width, p)],
    ensures
        count_true(vs) == width * height,
{
    assert forall|i: int| 0 <= i < vs.len() implies vs[i] by {
        let p = pos_of_index(width, height, i);
        assert(vs[flat_idx(width, p)]);
    }
    crate::cellset::lemma_count_all_true(vs, vs.len() as int);
}

} // verus!
