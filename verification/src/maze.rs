//! The uniform capability contract that every generation engine
//! satisfies, and the roster of algorithms a caller can cycle through.

use vstd::prelude::*;
use rand::rngs::StdRng;
use crate::grid::Grid;
use crate::tree::is_spanning_tree;

verus! {

/// A maze generation engine that a caller can drive step by step
/// without knowing which algorithm is behind it.
///
/// A caller builds an engine, then repeatedly calls [`Maze::generate`]
/// until [`Maze::complete`] reports true; at that point the grid's
/// cleared walls form a spanning tree of the grid.
pub trait Maze: Sized {
    /// The engine's internal consistency invariant.
    spec fn wf(&self) -> bool;

    /// The grid the engine is carving.
    spec fn grid_view(&self) -> Grid;

    /// The engine has finished its maze.
    spec fn done(&self) -> bool;

    /// A fresh engine for a `width` by `height` grid with every wall
    /// still present.
    fn new(width: usize, height: usize, rng: &mut StdRng) -> (m: Self)
        requires
            1 <= width,
            1 <= height,
            width * height <= usize::MAX,
        ensures
            m.wf(),
            m.grid_view().width == width,
            m.grid_view().height == height,
            m.grid_view().cleared_count() == 0,
    ;

    /// Whether generation has finished.  A finished maze is a spanning
    /// tree: every pair of cells is joined through cleared walls, by
    /// exactly one less cleared wall than there are cells.
    fn complete(&self) -> (r: bool)
        requires
            self.wf(),
        ensures
            r == self.done(),
            r ==> is_spanning_tree(self.grid_view()),
    ;

    /// Start over on a fresh grid of the same size.
    fn reset(&mut self, rng: &mut StdRng)
        requires
            old(self).wf(),
        ensures
            final(self).wf(),
            final(self).grid_view().width == old(self).grid_view().width,
            final(self).grid_view().height == old(self).grid_view().height,
            final(self).grid_view().cleared_count() == 0,
    ;

    /// A read-only view of the grid, for a rendering collaborator.
    fn grid(&self) -> (g: &Grid)
        ensures
            *g == self.grid_view(),
    ;

    /// One atomic unit of generation work; a no-op once the maze is
    /// complete.
    fn generate(&mut self, rng: &mut StdRng)
        requires
            old(self).wf(),
        ensures
            final(self).wf(),
            final(self).grid_view().width == old(self).grid_view().width,
            final(self).grid_view().height == old(self).grid_view().height,
            old(self).done() ==> *final(self) == *old(self),
    ;
}

/// The generation algorithms, in showcase order.
#[derive(Clone, Copy, PartialEq, Eq, Structural, Debug)]
pub enum Algorithm {
    DepthFirstSearch,
    BinaryTree,
    HuntAndKill,
    Prim,
    RandomizedPrim,
    Kruskal,
    AldousBroder,
    Wilson,
}

impl Algorithm {
    /// The algorithm that follows this one in the rotation.
    pub open spec fn next_spec(self) -> Algorithm {
        match self {
            Algorithm::DepthFirstSearch => Algorithm::BinaryTree,
            Algorithm::BinaryTree => Algorithm::HuntAndKill,
            Algorithm::HuntAndKill => Algorithm::Prim,
            Algorithm::Prim => Algorithm::RandomizedPrim,
            Algorithm::RandomizedPrim => Algorithm::Kruskal,
            Algorithm::Kruskal => Algorithm::AldousBroder,
            Algorithm::AldousBroder => Algorithm::Wilson,
            Algorithm::Wilson => Algorithm::DepthFirstSearch,
        }
    }

    pub fn next(&self) -> (a: Algorithm)
        ensures
            a == self.next_spec(),
    {
        match self {
            Algorithm::DepthFirstSearch => Algorithm::BinaryTree,
            Algorithm::BinaryTree => Algorithm::HuntAndKill,
            Algorithm::HuntAndKill => Algorithm::Prim,
            Algorithm::Prim => Algorithm::RandomizedPrim,
            Algorithm::RandomizedPrim => Algorithm::Kruskal,
            Algorithm::Kruskal => Algorithm::AldousBroder,
            Algorithm::AldousBroder => Algorithm::Wilson,
            Algorithm::Wilson => Algorithm::DepthFirstSearch,
        }
    }
}

} // verus!
