//! A set of grid cells, stored as one flag per cell together with a
//! running count of its members.

use vstd::prelude::*;
use crate::grid::{Pos, flat_idx, lat_adj, lemma_flat_idx_bounds};

verus! {

/// How many of the first `k` flags are set.
pub open spec fn count_true_upto(s: Seq<bool>, k: int) -> int
    decreases k,
{
    if k <= 0 {
        0
    } else {
        count_true_upto(s, k - 1) + if s[k - 1] { 1int } else { 0int }
    }
}

/// How many flags of the whole sequence are set.
pub open spec fn count_true(s: Seq<bool>) -> int {
    count_true_upto(s, s.len() as int)
}

pub proof fn lemma_count_bounds(s: Seq<bool>, k: int)
    ensures
        0 <= count_true_upto(s, k) <= if k <= 0 { 0int } else { k },
    decreases k,
{
    if k > 0 {
        lemma_count_bounds(s, k - 1);
    }
}

pub proof fn lemma_count_mono(s: Seq<bool>, k1: int, k2: int)
    requires
        k1 <= k2,
    ensures
        count_true_upto(s, k1) <= count_true_upto(s, k2),
    decreases k2 - k1,
{
    if k1 < k2 {
        lemma_count_mono(s, k1, k2 - 1);
    }
}

/// Changing a single flag changes the count by exactly that flag's
/// change.
pub proof fn lemma_count_update(s1: Seq<bool>, s2: Seq<bool>, j: int, k: int)
    requires
        0 <= j,
        forall|i: int| 0 <= i < k && i != j ==> s1[i] == s2[i],
    ensures
        k <= j ==> count_true_upto(s2, k) == count_true_upto(s1, k),
        k > j ==> count_true_upto(s2, k) == count_true_upto(s1, k)
            + (if s2[j] { 1int } else { 0int }) - (if s1[j] { 1int } else { 0int }),
    decreases k,
{
    if k > 0 {
        lemma_count_update(s1, s2, j, k - 1);
    }
}

/// All flags set below `k` means the count below `k` is `k`.
pub proof fn lemma_count_all_true(s: Seq<bool>, k: int)
    requires
        forall|i: int| 0 <= i < k ==> s[i],
        0 <= k,
    ensures
        count_true_upto(s, k) == k,
    decreases k,
{
    if k > 0 {
        lemma_count_all_true(s, k - 1);
    }
}

/// No flag set below `k` means the count below `k` is zero.
pub proof fn lemma_count_all_false(s: Seq<bool>, k: int)
    requires
        forall|i: int| 0 <= i < k ==> !s[i],
    ensures
        count_true_upto(s, k) == 0,
    decreases k,
{
    if k > 0 {
        lemma_count_all_false(s, k - 1);
    }
}

/// A full count below `k` means every flag below `k` is set.
pub proof fn lemma_count_full(s: Seq<bool>, k: int)
    requires
        count_true_upto(s, k) == k,
        0 <= k,
    ensures
        forall|i: int| 0 <= i < k ==> s[i],
    decreases k,
{
    if k > 0 {
        lemma_count_bounds(s, k - 1);
        lemma_count_full(s, k - 1);
    }
}

/// A positive count below `k` yields a set flag below `k`.
pub proof fn lemma_count_member(s: Seq<bool>, k: int)
    requires
        count_true_upto(s, k) >= 1,
    ensures
        exists|i: int| 0 <= i < k && s[i],
    decreases k,
{
    if k > 0 {
        if s[k - 1] {
            assert(0 <= k - 1 < k && s[k - 1]);
        } else {
            lemma_count_member(s, k - 1);
        }
    }
}

/// A set flag below `k` makes the count below `k` positive.
pub proof fn lemma_count_at_least_one(s: Seq<bool>, k: int, v: int)
    requires
        0 <= v < k,
        s[v],
    ensures
        count_true_upto(s, k) >= 1,
{
    lemma_count_bounds(s, v);
    lemma_count_mono(s, v + 1, k);
}

/// Two distinct set flags make the count at least two.
pub proof fn lemma_count_at_least_two(s: Seq<bool>, k: int, v: int, w: int)
    requires
        0 <= v < w < k,
        s[v],
        s[w],
    ensures
        count_true_upto(s, k) >= 2,
{
    lemma_count_bounds(s, v);
    lemma_count_mono(s, v + 1, w);
    lemma_count_mono(s, w + 1, k);
}

/// A set of cells of a `width` by `height` grid.
pub struct CellSet {
    pub width: usize,
    pub height: usize,
    pub cells: Vec<bool>,
    pub count: usize,
}

impl CellSet {
    pub open spec fn area(self) -> int {
        self.width * self.height
    }

    pub open spec fn wf(self) -> bool {
        &&& 1 <= self.width
        &&& 1 <= self.height
        &&& self.width * self.height <= usize::MAX
        &&& self.cells.len() == self.area()
        &&& self.count == count_true(self.cells@)
    }

    pub open spec fn in_bounds(self, p: Pos) -> bool {
        p.x < self.width && p.y < self.height
    }

    pub open spec fn idx(self, p: Pos) -> int {
        flat_idx(self.width as int, p)
    }

    /// The cell is a member of the set.
    pub open spec fn has(self, p: Pos) -> bool {
        self.cells[self.idx(p)]
    }

    /// The cell has at least one lattice neighbour outside the set.
    pub open spec fn has_absent_neighbor(self, p: Pos) -> bool {
        exists|q: Pos| #[trigger] lat_adj(p, q) && self.in_bounds(q) && !self.has(q)
    }

    /// The empty set of cells.
    pub fn new(width: usize, height: usize) -> (s: CellSet)
        requires
            1 <= width,
            1 <= height,
            width * height <= usize::MAX,
        ensures
            s.wf(),
            s.width == width,
            s.height == height,
            s.count == 0,
            forall|i: int| 0 <= i < s.area() ==> !s.cells[i],
    {
        let total: usize = width * height;
        let mut cells: Vec<bool> = Vec::new();
        let mut i: usize = 0;
        while i < total
            invariant
                i <= total,
                cells.len() == i,
                forall|j: int| 0 <= j < i ==> !cells[j],
            decreases total - i,
        {
            cells.push(false);
            i = i + 1;
        }
        proof {
            lemma_count_all_false(cells@, cells@.len() as int);
        }
        CellSet { width, height, cells, count: 0 }
    }

    pub fn contains(&self, p: Pos) -> (r: bool)
        requires
            self.wf(),
            self.in_bounds(p),
        ensures
            r == self.has(p),
    {
        proof {
            lemma_flat_idx_bounds(self.width as int, self.height as int, p);
        }
        let i: usize = p.y * self.width + p.x;
        self.cells[i]
    }

    /// Add a cell; a cell already present leaves the set unchanged.
    pub fn insert(&mut self, p: Pos)
        requires
            old(self).wf(),
            old(self).in_bounds(p),
        ensures
            final(self).wf(),
            final(self).width == old(self).width,
            final(self).height == old(self).height,
            old(self).has(p) ==> *final(self) == *old(self),
            !old(self).has(p) ==> final(self).cells@ == old(self).cells@.update(old(self).idx(p), true)
                && final(self).count == old(self).count + 1,
    {
        proof {
            lemma_flat_idx_bounds(self.width as int, self.height as int, p);
        }
        let i: usize = p.y * self.width + p.x;
        if !self.cells[i] {
            self.cells.set(i, true);
            proof {
                lemma_count_update(
                    old(self).cells@,
                    self.cells@,
                    i as int,
                    self.cells@.len() as int,
                );
                lemma_count_bounds(self.cells@, self.cells@.len() as int);
            }
            self.count = self.count + 1;
        }
    }

    /// Drop a cell; a cell already absent leaves the set unchanged.
    pub fn remove(&mut self, p: Pos)
        requires
            old(self).wf(),
            old(self).in_bounds(p),
        ensures
            final(self).wf(),
            final(self).width == old(self).width,
            final(self).height == old(self).height,
            !old(self).has(p) ==> *final(self) == *old(self),
            old(self).has(p) ==> final(self).cells@ == old(self).cells@.update(old(self).idx(p), false)
                && final(self).count == old(self).count - 1,
    {
        proof {
            lemma_flat_idx_bounds(self.width as int, self.height as int, p);
        }
        let i: usize = p.y * self.width + p.x;
        if self.cells[i] {
            proof {
                lemma_count_at_least_one(self.cells@, self.cells@.len() as int, i as int);
            }
            self.cells.set(i, false);
            proof {
                lemma_count_update(
                    old(self).cells@,
                    self.cells@,
                    i as int,
                    self.cells@.len() as int,
                );
            }
            self.count = self.count - 1;
        }
    }

    /// The number of cells in the set.
    pub fn len(&self) -> (r: usize)
        requires
            self.wf(),
        ensures
            r == count_true(self.cells@),
    {
        self.count
    }

    /// The set holds every cell of the grid.
    pub fn is_full(&self) -> (r: bool)
        requires
            self.wf(),
        ensures
            r == (count_true(self.cells@) == self.area()),
    {
        self.count == self.width * self.height
    }

    /// Some cell of the grid that is not in the set, if one exists.
    pub fn find_absent(&self) -> (r: Option<Pos>)
        requires
            self.wf(),
        ensures
            match r {
                Some(p) => self.in_bounds(p) && !self.has(p),
                None => count_true(self.cells@) == self.area(),
            },
    {
        let total: usize = self.width * self.height;
        let mut i: usize = 0;
        let mut x: usize = 0;
        let mut y: usize = 0;
        while i < total
            invariant
                self.wf(),
                total == self.area(),
                i == y * self.width + x,
                x < self.width,
                y <= self.height,
                i <= total,
                forall|j: int| 0 <= j < i ==> self.cells[j],
            decreases total - i,
        {
            proof {
                assert(y < self.height) by (nonlinear_arith)
                    requires
                        i == y * self.width + x,
                        i < total,
                        total == self.width * self.height,
                        x < self.width,
                        y <= self.height,
                ;
            }
            if !self.cells[i] {
                let p = Pos::new(x, y);
                proof {
                    lemma_flat_idx_bounds(self.width as int, self.height as int, p);
                }
                return Some(p);
            }
            i = i + 1;
            x = x + 1;
            if x == self.width {
                proof {
                    assert((y + 1) * self.width == y * self.width + self.width) by (nonlinear_arith);
                }
                x = 0;
                y = y + 1;
            }
        }
        proof {
            lemma_count_all_true(self.cells@, self.cells@.len() as int);
        }
        None
    }

    /// The cells of the set, each exactly once, in row-major order.
    pub fn members(&self) -> (r: Vec<Pos>)
        requires
            self.wf(),
        ensures
            r@.len() == count_true(self.cells@),
            forall|k: int| 0 <= k < r@.len() ==> self.in_bounds(#[trigger] r@[k]) && self.has(r@[k]),
            forall|k1: int, k2: int| 0 <= k1 < k2 < r@.len() ==> flat_idx(
                self.width as int,
                r@[k1],
            ) < flat_idx(self.width as int, r@[k2]),
            forall|k1: int, k2: int| 0 <= k1 < k2 < r@.len() ==> r@[k1] != r@[k2],
            forall|p: Pos| self.in_bounds(p) && #[trigger] self.has(p) ==> exists|k: int|
                0 <= k < r@.len() && r@[k] == p,
    {
        let ghost w = self.width as int;
        let ghost h = self.height as int;
        let total: usize = self.width * self.height;
        let mut out: Vec<Pos> = Vec::new();
        let mut i: usize = 0;
        let mut x: usize = 0;
        let mut y: usize = 0;
        while i < total
            invariant
                self.wf(),
                w == self.width as int,
                h == self.height as int,
                total == self.area(),
                i == y * self.width + x,
                x < self.width,
                y <= self.height,
                i <= total,
                out@.len() == count_true_upto(self.cells@, i as int),
                forall|k: int| 0 <= k < out@.len() ==> self.in_bounds(#[trigger] out@[k])
                    && self.has(out@[k]) && flat_idx(w, out@[k]) < i,
                forall|k1: int, k2: int| 0 <= k1 < k2 < out@.len() ==> flat_idx(w, out@[k1])
                    < flat_idx(w, out@[k2]),
                forall|p: Pos| self.in_bounds(p) && #[trigger] self.has(p) && flat_idx(w, p) < i
                    ==> exists|k: int| 0 <= k < out@.len() && out@[k] == p,
            decreases total - i,
        {
            proof {
                assert(y < self.height) by (nonlinear_arith)
                    requires
                        i == y * self.width + x,
                        i < total,
                        total == self.width * self.height,
                        x < self.width,
                        y <= self.height,
                ;
            }
            let ghost out0 = out@;
            if self.cells[i] {
                let p = Pos::new(x, y);
                proof {
                    lemma_flat_idx_bounds(w, h, p);
                }
                out.push(p);
            }
            proof {
                assert forall|p: Pos| self.in_bounds(p) && #[trigger] self.has(p) && flat_idx(w, p)
                    < i + 1 implies exists|k: int| 0 <= k < out@.len() && out@[k] == p by {
                    lemma_flat_idx_bounds(w, h, p);
                    if flat_idx(w, p) < i {
                        let k = choose|k: int| 0 <= k < out0.len() && out0[k] == p;
                        assert(out@[k] == p);
                    } else {
                        // the cell with flat index `i` is the one just
                        // collected
                        crate::grid::lemma_flat_idx_injective(w, h, p, Pos { x: x, y: y });
                        assert(out@[out@.len() - 1] == p);
                    }
                }
            }
            i = i + 1;
            x = x + 1;
            if x == self.width {
                proof {
                    assert((y + 1) * self.width == y * self.width + self.width) by (nonlinear_arith);
                }
                x = 0;
                y = y + 1;
            }
        }
        proof {
            assert forall|p: Pos| self.in_bounds(p) && #[trigger] self.has(p) implies exists|k: int|
                0 <= k < out@.len() && out@[k] == p by {
                lemma_flat_idx_bounds(w, h, p);
            }
            assert forall|k1: int, k2: int| 0 <= k1 < k2 < out@.len() implies out@[k1]
                != out@[k2] by {
                assert(flat_idx(w, out@[k1]) < flat_idx(w, out@[k2]));
            }
        }
        out
    }
}

} // verus!
